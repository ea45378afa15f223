//! The lexical cursor and recursive-descent parser.
//!
//! [`Parser`] holds the input as a sequence of characters together with the
//! current position. Every grammar violation aborts the whole parse with a
//! [`ParseError`] carrying the position: there is no recovery and no partial
//! result. Each method is verified against the corresponding spec function
//! of [`crate::lex`] and [`crate::grammar`].
use vstd::prelude::*;

use vstd::string::StrSliceExecFns;

use crate::lex::at_ws;
use crate::lex::digits_end;
use crate::lex::is_comment_at;
use crate::lex::is_digit_char;
use crate::lex::is_name_char;
use crate::lex::is_ws_char;
use crate::lex::lemma_skip_to_end_bounds;
use crate::lex::lemma_skip_ws_end_bounds;
use crate::lex::lemma_skip_wsoc_after_comment;
use crate::lex::lemma_skip_wsoc_after_ws;
use crate::lex::lemma_skip_wsoc_end_bounds;
use crate::lex::matches_at;
use crate::lex::name_end;
use crate::lex::num_val;
use crate::lex::peek_at;
use crate::lex::skip_to_end;
use crate::lex::skip_ws_end;
use crate::lex::skip_wsoc_end;
use crate::ast::Enum;
use crate::ast::EnumField;
use crate::ast::EnumFieldV;
use crate::ast::Frequency;
use crate::ast::MessageField;
use crate::ast::MessageFieldV;
use crate::ast::Type;
use crate::ast::fields_seq_view;
use crate::ast::enums_seq_view;
use crate::ast::lemma_enums_seq_view_push;
use crate::ast::lemma_fields_seq_view_push;
use crate::ast::lemma_msgs_seq_view_push;
use crate::ast::lemma_oneofs_seq_view_push;
use crate::ast::Message;
use crate::ast::msg_view;
use crate::ast::msgs_seq_view;
use crate::ast::Oneof;
use crate::ast::oneof_view;
use crate::ast::oneofs_seq_view;
use crate::ast::lemma_msg_fields_seq_view_push;
use crate::ast::msg_fields_seq_view;
use crate::grammar::field_start_kws;
use crate::grammar::frequency_kws;
use crate::grammar::lemma_match_any_prefix;
use crate::grammar::lemma_spec_consume_name_bounds;
use crate::grammar::members_concat;
use crate::grammar::members_empty;
use crate::grammar::members_of;
use crate::grammar::message_from_parts;
use crate::grammar::oneof_from_parts;
use crate::grammar::spec_members_loop;
use crate::grammar::spec_consume_message;
use crate::grammar::spec_consume_oneof;
use crate::grammar::lemma_match_any_three;
use crate::grammar::lemma_match_any_two;
use crate::grammar::spec_consume_enum;
use crate::grammar::spec_consume_enum_field;
use crate::grammar::spec_consume_enum_fields;
use crate::grammar::spec_consume_frequency;
use crate::grammar::spec_consume_message_field;
use crate::grammar::spec_consume_message_fields;
use crate::grammar::spec_enum_fields_loop;
use crate::grammar::spec_message_fields_loop;
use crate::grammar::spec_consume_name;
use crate::grammar::spec_consume_number;
use crate::grammar::spec_consume_type;
use crate::grammar::spec_match_any;
use crate::grammar::spec_skip;
use crate::grammar::starts_enum;
use crate::grammar::starts_field;
use crate::grammar::starts_message;
use crate::grammar::starts_oneof;
use crate::grammar::type_kws;

verus! {

/// The parse failed at this position of the input, measured in characters.
/// A failure abandons the whole parse: the error is the only result.
#[derive(Debug, Clone, Copy, PartialEq, Eq, Structural)]
pub struct ParseError {
    pub position: usize,
}

/// The lexical cursor and parser: a position-tracked, forward-only view of
/// the input, measured in characters. `text` holds the same input as a
/// string, kept alongside so that name extraction can hand back an owned
/// substring; it never changes.
#[derive(Debug)]
pub struct Parser {
    pub body: Vec<char>,
    pub curr_index: usize,
    pub text: String,
}

/// Which keyword introduces the compound block being parsed.
#[derive(Debug, Clone, Copy, PartialEq, Eq, Structural)]
pub enum CompoundTypeMarker {
    Message,
    Oneof,
}

/// The result of parsing a compound block: a message or a oneof, matching
/// the marker the parse was asked for.
#[derive(Debug, PartialEq, Eq)]
pub enum CompoundType {
    Message(Message),
    Oneof(Oneof),
}

/// The characters of `s`, in order.
pub fn str_to_vec(s: &str) -> (v: Vec<char>)
    ensures
        v@ == s@,
{
    let n = s.unicode_len();
    let mut v: Vec<char> = Vec::new();
    let mut i: usize = 0;
    while i < n
        invariant
            n == s@.len(),
            i <= n,
            v@ == s@.subrange(0, i as int),
        decreases n - i,
    {
        v.push(s.get_char(i));
        i = i + 1;
        proof {
            assert(v@ =~= s@.subrange(0, i as int));
        }
    }
    proof {
        assert(v@ =~= s@);
    }
    v
}

/// The current character is an ASCII whitespace character.
fn ws_char(c: char) -> (r: bool)
    ensures
        r == is_ws_char(c),
{
    c == ' ' || c == '\t' || c == '\n' || c == '\x0c' || c == '\r'
}

/// The character may appear in a name: ASCII alphabetic or underscore.
fn name_char(c: char) -> (r: bool)
    ensures
        r == is_name_char(c),
{
    let u = c as u32;
    (97 <= u && u <= 122) || (65 <= u && u <= 90) || c == '_'
}

/// The character is an ASCII decimal digit.
fn digit_char(c: char) -> (r: bool)
    ensures
        r == is_digit_char(c),
{
    let u = c as u32;
    48 <= u && u <= 57
}

/// A vector's view never has more elements than `usize` can count.
proof fn lemma_vec_len_bound(v: &Vec<char>)
    ensures
        v@.len() <= usize::MAX,
{
    assert(v.len() == v@.len());
}

impl Parser {
    /// The cursor is well formed: the position never passes the end of the
    /// input, and the string copy of the input agrees with the character
    /// vector.
    pub open spec fn wf(&self) -> bool {
        self.curr_index <= self.body@.len() && self.text@ == self.body@
    }

    /// A fresh cursor over `input`, at position 0.
    pub fn new(input: &str) -> (p: Parser)
        ensures
            p.wf(),
            p.body@ == input@,
            p.curr_index == 0,
    {
        Parser { body: str_to_vec(input), curr_index: 0, text: input.to_owned() }
    }

    /// The character at the current position, if any. Never fails.
    pub fn peek_curr(&self) -> (r: Option<char>)
        ensures
            r == peek_at(self.body@, self.curr_index as int),
    {
        if self.is_in_bounds() {
            Some(self.body[self.curr_index])
        } else {
            None
        }
    }

    /// The character just after the current position, if any. Never fails.
    pub fn peek_next(&self) -> (r: Option<char>)
        requires
            self.wf(),
        ensures
            r == peek_at(self.body@, self.curr_index + 1),
    {
        if self.next_is_in_bounds() {
            proof {
                lemma_vec_len_bound(&self.body);
            }
            Some(self.body[self.curr_index + 1])
        } else {
            None
        }
    }

    /// The position just after the current one is inside the input.
    pub fn next_is_in_bounds(&self) -> (r: bool)
        requires
            self.wf(),
        ensures
            r == (self.curr_index + 1 < self.body@.len()),
    {
        self.body.len() - self.curr_index > 1
    }

    /// The current position is inside the input.
    pub fn is_in_bounds(&self) -> (r: bool)
        ensures
            r == (self.curr_index < self.body@.len()),
    {
        self.curr_index < self.body.len()
    }

    /// The character at the current position, which must be in bounds.
    pub fn curr_char(&self) -> (c: char)
        requires
            self.curr_index < self.body@.len(),
        ensures
            c == self.body@[self.curr_index as int],
    {
        self.body[self.curr_index]
    }

    /// The cursor sits exactly at the end of the input.
    pub fn is_finished(&self) -> (r: bool)
        ensures
            r == (self.curr_index == self.body@.len()),
    {
        self.curr_index == self.body.len()
    }

    /// The current character exists and is whitespace.
    pub fn is_whitespace(&self) -> (r: bool)
        ensures
            r == at_ws(self.body@, self.curr_index as int),
    {
        if self.is_in_bounds() {
            ws_char(self.curr_char())
        } else {
            false
        }
    }

    /// A `//` line comment starts at the current position.
    pub fn is_comment(&self) -> (r: bool)
        requires
            self.wf(),
        ensures
            r == is_comment_at(self.body@, self.curr_index as int),
    {
        if let (Some(curr), Some(next)) = (self.peek_curr(), self.peek_next()) {
            curr == '/' && next == '/'
        } else {
            false
        }
    }

    /// Advance past the maximal whitespace run; report whether anything was
    /// skipped.
    pub fn skip_whitespace(&mut self) -> (r: bool)
        requires
            old(self).wf(),
        ensures
            final(self).wf(),
            final(self).body@ == old(self).body@,
            final(self).text@ == old(self).text@,
            final(self).curr_index == skip_ws_end(old(self).body@, old(self).curr_index as int),
            r == (final(self).curr_index != old(self).curr_index),
            old(self).curr_index <= final(self).curr_index,
    {
        let ghost t = self.body@;
        let ghost i0 = self.curr_index as int;
        let mut ret = false;
        while self.is_whitespace()
            invariant
                self.wf(),
                self.body@ == t,
                self.text@ == old(self).text@,
                i0 <= self.curr_index as int,
                skip_ws_end(t, i0) == skip_ws_end(t, self.curr_index as int),
                ret == (self.curr_index as int != i0),
            decreases t.len() - self.curr_index,
        {
            proof {
                lemma_vec_len_bound(&self.body);
            }
            self.curr_index = self.curr_index + 1;
            ret = true;
        }
        ret
    }

    /// If a comment starts here, advance to (not past) the next newline or
    /// the end of the input; report whether a comment was skipped.
    pub fn skip_comment(&mut self) -> (r: bool)
        requires
            old(self).wf(),
        ensures
            final(self).wf(),
            final(self).body@ == old(self).body@,
            final(self).text@ == old(self).text@,
            r == is_comment_at(old(self).body@, old(self).curr_index as int),
            final(self).curr_index == if is_comment_at(old(self).body@, old(self).curr_index as int) {
                skip_to_end(old(self).body@, old(self).curr_index as int, '\n')
            } else {
                old(self).curr_index as int
            },
            old(self).curr_index <= final(self).curr_index,
    {
        if self.is_comment() {
            self.skip_until('\n');
            true
        } else {
            false
        }
    }

    /// Advance to (not past) the next occurrence of `c`, or to the end of
    /// the input if there is none.
    pub fn skip_until(&mut self, c: char)
        requires
            old(self).wf(),
        ensures
            final(self).wf(),
            final(self).body@ == old(self).body@,
            final(self).text@ == old(self).text@,
            final(self).curr_index == skip_to_end(old(self).body@, old(self).curr_index as int, c),
            old(self).curr_index <= final(self).curr_index,
    {
        let ghost t = self.body@;
        let ghost i0 = self.curr_index as int;
        while self.curr_index < self.body.len() && self.body[self.curr_index] != c
            invariant
                self.wf(),
                self.body@ == t,
                self.text@ == old(self).text@,
                i0 <= self.curr_index as int,
                skip_to_end(t, i0, c) == skip_to_end(t, self.curr_index as int, c),
            decreases t.len() - self.curr_index,
        {
            proof {
                lemma_vec_len_bound(&self.body);
            }
            self.curr_index = self.curr_index + 1;
        }
    }

    /// Advance past every whitespace run and `//` line comment, until the
    /// current position starts neither: the normalization point between any
    /// two grammar tokens.
    pub fn skip_whitespace_or_comment(&mut self)
        requires
            old(self).wf(),
        ensures
            final(self).wf(),
            final(self).body@ == old(self).body@,
            final(self).text@ == old(self).text@,
            final(self).curr_index == skip_wsoc_end(old(self).body@, old(self).curr_index as int),
            old(self).curr_index <= final(self).curr_index,
    {
        let ghost t = self.body@;
        let ghost i0 = self.curr_index as int;
        while self.is_whitespace() || self.is_comment()
            invariant
                self.wf(),
                self.body@ == t,
                self.text@ == old(self).text@,
                i0 <= self.curr_index as int,
                skip_wsoc_end(t, i0) == skip_wsoc_end(t, self.curr_index as int),
            decreases t.len() - self.curr_index,
        {
            let ghost before = self.curr_index as int;
            proof {
                lemma_skip_wsoc_after_ws(t, before);
                lemma_skip_ws_end_bounds(t, before);
            }
            self.skip_whitespace();
            let ghost mid = self.curr_index as int;
            proof {
                if is_comment_at(t, mid) {
                    lemma_skip_wsoc_after_comment(t, mid);
                    lemma_skip_to_end_bounds(t, mid, '\n');
                    assert(skip_to_end(t, mid, '\n') == skip_to_end(t, mid + 1, '\n'));
                    lemma_skip_to_end_bounds(t, mid + 1, '\n');
                }
            }
            self.skip_comment();
            proof {
                if self.curr_index as int == before {
                    // the loop condition held, so one of the two skips moved
                    if at_ws(t, before) {
                        assert(skip_ws_end(t, before) == skip_ws_end(t, before + 1));
                        lemma_skip_ws_end_bounds(t, before + 1);
                        assert(false);
                    }
                    assert(is_comment_at(t, before));
                    assert(false);
                }
            }
        }
    }

    /// The literal `s` occurs at the current position; false, not an error,
    /// when it would run past the end of the input.
    pub fn matches(&self, s: &str) -> (r: bool)
        requires
            self.wf(),
        ensures
            r == matches_at(self.body@, self.curr_index as int, s@),
    {
        let ghost t = self.body@;
        let ghost i = self.curr_index as int;
        let veced_str = str_to_vec(s);
        let veced_str_len = veced_str.len();

        proof {
            lemma_vec_len_bound(&self.body);
        }
        if self.body.len() - self.curr_index < veced_str_len {
            return false;
        }
        let mut k: usize = 0;
        while k < veced_str_len
            invariant
                t == self.body@,
                i == self.curr_index as int,
                veced_str@ == s@,
                veced_str_len == s@.len(),
                0 <= i,
                i + veced_str_len <= t.len(),
                t.len() <= usize::MAX,
                k <= veced_str_len,
                forall|j: int| 0 <= j < k ==> t[i + j] == s@[j],
            decreases veced_str_len - k,
        {
            if self.body[self.curr_index + k] != veced_str[k] {
                proof {
                    assert(t.subrange(i, i + s@.len())[k as int] == t[i + k]);
                }
                return false;
            }
            k = k + 1;
        }
        proof {
            assert(t.subrange(i, i + s@.len()) =~= s@);
        }
        true
    }

    /// Consume the literal `s`, or abort the parse if it is not current.
    pub fn consume(&mut self, s: &str) -> (r: Result<String, ParseError>)
        requires
            old(self).wf(),
        ensures
            final(self).wf(),
            final(self).body@ == old(self).body@,
            final(self).text@ == old(self).text@,
            matches_at(old(self).body@, old(self).curr_index as int, s@) ==> {
                &&& r matches Ok(c) && c@ == s@
                &&& final(self).curr_index == old(self).curr_index + s@.len()
            },
            !matches_at(old(self).body@, old(self).curr_index as int, s@) ==> {
                &&& r is Err
                &&& final(self).curr_index == old(self).curr_index
            },
            r matches Err(e) ==> e.position == final(self).curr_index,
            old(self).curr_index <= final(self).curr_index,
    {
        let veced_str = str_to_vec(s);
        let veced_str_len = veced_str.len();
        if self.matches(s) {
            proof {
                lemma_vec_len_bound(&self.body);
            }
            self.curr_index = self.curr_index + veced_str_len;
            Ok(s.to_owned())
        } else {
            Err(ParseError { position: self.curr_index })
        }
    }

    /// If the current character (which must exist) is `c`, advance past it
    /// and report true; otherwise stay put and report false.
    pub fn skip(&mut self, c: char) -> (r: bool)
        requires
            old(self).wf(),
            old(self).curr_index < old(self).body@.len(),
        ensures
            final(self).wf(),
            final(self).body@ == old(self).body@,
            final(self).text@ == old(self).text@,
            r == (old(self).body@[old(self).curr_index as int] == c),
            final(self).curr_index == spec_skip(old(self).body@, old(self).curr_index as int, c),
            old(self).curr_index <= final(self).curr_index,
    {
        proof {
            lemma_vec_len_bound(&self.body);
        }
        if self.body[self.curr_index] == c {
            self.curr_index = self.curr_index + 1;
            return true;
        }
        false
    }

    /// Skip whitespace and comments, then consume the maximal run of name
    /// characters; the run may be empty. Aborts only when the run ends at
    /// the very end of the input.
    pub fn consume_name(&mut self) -> (r: Result<String, ParseError>)
        requires
            old(self).wf(),
        ensures
            final(self).wf(),
            final(self).body@ == old(self).body@,
            final(self).text@ == old(self).text@,
            spec_consume_name(old(self).body@, old(self).curr_index as int) matches Some((nm, j))
                ==> r matches Ok(c) && c@ == nm && final(self).curr_index == j,
            spec_consume_name(old(self).body@, old(self).curr_index as int) is None ==> {
                &&& r is Err
                &&& final(self).curr_index == old(self).body@.len()
            },
            r matches Err(e) ==> e.position == final(self).curr_index,
            old(self).curr_index <= final(self).curr_index,
    {
        let ghost t = self.body@;
        let ghost i0 = self.curr_index as int;
        self.skip_whitespace_or_comment();
        let start = self.curr_index;
        while self.curr_index < self.body.len() && name_char(self.body[self.curr_index])
            invariant
                self.wf(),
                self.body@ == t,
                self.text@ == old(self).text@,
                start <= self.curr_index,
                name_end(t, start as int) == name_end(t, self.curr_index as int),
            decreases t.len() - self.curr_index,
        {
            proof {
                lemma_vec_len_bound(&self.body);
                assert(name_end(t, self.curr_index as int) == name_end(
                    t,
                    self.curr_index + 1,
                ));
            }
            self.curr_index = self.curr_index + 1;
        }
        proof {
            assert(name_end(t, self.curr_index as int) == self.curr_index as int);
        }
        if !self.is_in_bounds() {
            return Err(ParseError { position: self.curr_index });
        }
        let sub = self.text.as_str().substring_char(start, self.curr_index);
        Ok(sub.to_owned())
    }

    /// Consume the maximal run of ASCII digits, reading them as a base-10
    /// number with wrapping `u32` accumulation; the run may be empty.
    /// Aborts only when the run ends at the very end of the input.
    pub fn consume_number(&mut self) -> (r: Result<u32, ParseError>)
        requires
            old(self).wf(),
        ensures
            final(self).wf(),
            final(self).body@ == old(self).body@,
            final(self).text@ == old(self).text@,
            spec_consume_number(old(self).body@, old(self).curr_index as int) matches Some((v, j))
                ==> r == Ok::<u32, ParseError>(v) && final(self).curr_index == j,
            spec_consume_number(old(self).body@, old(self).curr_index as int) is None ==> {
                &&& r is Err
                &&& final(self).curr_index == old(self).body@.len()
            },
            r matches Err(e) ==> e.position == final(self).curr_index,
            old(self).curr_index <= final(self).curr_index,
    {
        let ghost t = self.body@;
        let ghost i0 = self.curr_index as int;
        let mut res: u32 = 0;
        while self.curr_index < self.body.len() && digit_char(self.body[self.curr_index])
            invariant
                self.wf(),
                self.body@ == t,
                self.text@ == old(self).text@,
                0 <= i0 <= self.curr_index as int,
                digits_end(t, i0) == digits_end(t, self.curr_index as int),
                res as nat == num_val(t.subrange(i0, self.curr_index as int)),
            decreases t.len() - self.curr_index,
        {
            proof {
                lemma_vec_len_bound(&self.body);
                assert(digits_end(t, self.curr_index as int) == digits_end(
                    t,
                    self.curr_index + 1,
                ));
            }
            let c = self.body[self.curr_index];
            let d = c as u32 - 48;
            let ghost prev = res;
            res = res.wrapping_mul(10).wrapping_add(d);
            self.curr_index = self.curr_index + 1;
            proof {
                let cur = self.curr_index as int;
                let s = t.subrange(i0, cur);
                assert(s.subrange(0, s.len() - 1) =~= t.subrange(i0, cur - 1));
                assert(s[s.len() - 1] == t[cur - 1]);
                vstd::arithmetic::div_mod::lemma_add_mod_noop(
                    prev as int * 10,
                    d as int,
                    0x1_0000_0000,
                );
                assert(res as nat == num_val(s));
            }
        }
        proof {
            assert(digits_end(t, self.curr_index as int) == self.curr_index as int);
        }
        if !self.is_in_bounds() {
            return Err(ParseError { position: self.curr_index });
        }
        Ok(res)
    }

    /// Some candidate literal occurs at the current position.
    pub fn matches_any(&self, choices: &Vec<&str>) -> (r: bool)
        requires
            self.wf(),
        ensures
            r == (spec_match_any(self.body@, self.curr_index as int, choices.deep_view())
                is Some),
    {
        let ghost t = self.body@;
        let ghost i = self.curr_index as int;
        let ghost cs = choices.deep_view();
        let mut k: usize = 0;
        while k < choices.len()
            invariant
                self.wf(),
                self.body@ == t,
                self.curr_index as int == i,
                cs == choices.deep_view(),
                cs.len() == choices@.len(),
                k <= choices@.len(),
                forall|j: int| 0 <= j < k ==> !matches_at(t, i, #[trigger] cs[j]),
            decreases choices@.len() - k,
        {
            let choice = choices[k];
            proof {
                assert(cs[k as int] == choices@[k as int]@);
            }
            if self.matches(choice) {
                proof {
                    lemma_match_any_prefix(t, i, cs, k as int);
                }
                return true;
            }
            k = k + 1;
        }
        proof {
            lemma_match_any_prefix(t, i, cs, cs.len() as int);
        }
        false
    }

    /// Try each candidate literal in order and consume the first that
    /// matches, handing it back; nothing moves when none matches.
    pub fn consume_any(&mut self, choices: &Vec<&str>) -> (r: Option<String>)
        requires
            old(self).wf(),
        ensures
            final(self).wf(),
            final(self).body@ == old(self).body@,
            final(self).text@ == old(self).text@,
            match spec_match_any(
                old(self).body@,
                old(self).curr_index as int,
                choices.deep_view(),
            ) {
                Some(k) => {
                    &&& r matches Some(c) && c@ == choices.deep_view()[k]
                    &&& final(self).curr_index == old(self).curr_index
                        + choices.deep_view()[k].len()
                },
                None => {
                    &&& r is None
                    &&& final(self).curr_index == old(self).curr_index
                },
            },
            old(self).curr_index <= final(self).curr_index,
    {
        let ghost t = self.body@;
        let ghost i = self.curr_index as int;
        let ghost cs = choices.deep_view();
        let mut k: usize = 0;
        while k < choices.len()
            invariant
                self.wf(),
                self.body@ == t,
                t == old(self).body@,
                self.text@ == old(self).text@,
                self.curr_index as int == i,
                i == old(self).curr_index as int,
                cs == choices.deep_view(),
                cs.len() == choices@.len(),
                k <= choices@.len(),
                forall|j: int| 0 <= j < k ==> !matches_at(t, i, #[trigger] cs[j]),
            decreases choices@.len() - k,
        {
            let choice = choices[k];
            proof {
                assert(cs[k as int] == choices@[k as int]@);
            }
            if self.matches(choice) {
                proof {
                    lemma_match_any_prefix(t, i, cs, k as int);
                }
                match self.consume(choice) {
                    Ok(consumed) => {
                        return Some(consumed);
                    },
                    Err(_) => {
                        proof {
                            assert(false);
                        }
                        return None;
                    },
                }
            }
            k = k + 1;
        }
        proof {
            lemma_match_any_prefix(t, i, cs, cs.len() as int);
        }
        None
    }

    /// Consume a scalar type keyword, or abort the parse.
    pub fn consume_type(&mut self) -> (r: Result<Type, ParseError>)
        requires
            old(self).wf(),
        ensures
            final(self).wf(),
            final(self).body@ == old(self).body@,
            final(self).text@ == old(self).text@,
            match spec_consume_type(old(self).body@, old(self).curr_index as int) {
                Some((ty, j)) => {
                    &&& r == Ok::<Type, ParseError>(ty)
                    &&& final(self).curr_index == j
                },
                None => {
                    &&& r is Err
                    &&& final(self).curr_index == old(self).curr_index
                },
            },
            r matches Err(e) ==> e.position == final(self).curr_index,
            old(self).curr_index <= final(self).curr_index,
    {
        let ghost t = self.body@;
        let ghost i = self.curr_index as int;
        let mut choices: Vec<&str> = Vec::new();
        choices.push("string");
        choices.push("int32");
        proof {
            assert(choices.deep_view() =~= type_kws());
            lemma_match_any_two(t, i, "string"@, "int32"@);
            reveal_strlit("string");
            reveal_strlit("int32");
        }
        match self.consume_any(&choices) {
            Some(keyword) => {
                match Type::from_keyword(&keyword) {
                    Some(ty) => Ok(ty),
                    None => {
                        proof {
                            assert(false);
                        }
                        Err(ParseError { position: self.curr_index })
                    },
                }
            },
            None => Err(ParseError { position: self.curr_index }),
        }
    }

    /// Consume a frequency qualifier keyword if one is current; never aborts.
    pub fn consume_frequency(&mut self) -> (r: Option<Frequency>)
        requires
            old(self).wf(),
        ensures
            final(self).wf(),
            final(self).body@ == old(self).body@,
            final(self).text@ == old(self).text@,
            r == spec_consume_frequency(old(self).body@, old(self).curr_index as int).0,
            final(self).curr_index == spec_consume_frequency(
                old(self).body@,
                old(self).curr_index as int,
            ).1,
            old(self).curr_index <= final(self).curr_index,
    {
        let ghost t = self.body@;
        let ghost i = self.curr_index as int;
        let mut choices: Vec<&str> = Vec::new();
        choices.push("optional");
        choices.push("repeated");
        choices.push("required");
        proof {
            assert(choices.deep_view() =~= frequency_kws());
            lemma_match_any_three(t, i, "optional"@, "repeated"@, "required"@);
            reveal_strlit("optional");
            reveal_strlit("repeated");
            reveal_strlit("required");
        }
        match self.consume_any(&choices) {
            Some(keyword) => {
                match Frequency::from_keyword(&keyword) {
                    Some(freq) => Some(freq),
                    None => {
                        proof {
                            assert(false);
                        }
                        None
                    },
                }
            },
            None => None,
        }
    }

    /// An `enum` block starts at the current position.
    pub fn is_enum(&self) -> (r: bool)
        requires
            self.wf(),
        ensures
            r == starts_enum(self.body@, self.curr_index as int),
    {
        self.matches("enum")
    }

    /// A `message` block starts at the current position.
    pub fn is_message(&self) -> (r: bool)
        requires
            self.wf(),
        ensures
            r == starts_message(self.body@, self.curr_index as int),
    {
        self.matches("message")
    }

    /// A `oneof` block starts at the current position.
    pub fn is_oneof(&self) -> (r: bool)
        requires
            self.wf(),
        ensures
            r == starts_oneof(self.body@, self.curr_index as int),
    {
        self.matches("oneof")
    }

    /// A field starts at the current position: the current token is a type
    /// or frequency keyword, tried in that order.
    pub fn is_message_field(&self) -> (r: bool)
        requires
            self.wf(),
        ensures
            r == starts_field(self.body@, self.curr_index as int),
    {
        let mut choices: Vec<&str> = Vec::new();
        choices.push("string");
        choices.push("int32");
        choices.push("optional");
        choices.push("repeated");
        choices.push("required");
        proof {
            let kws = field_start_kws();
            assert(kws.len() == 5);
            assert(kws[0] == "string"@);
            assert(kws[1] == "int32"@);
            assert(kws[2] == "optional"@);
            assert(kws[3] == "repeated"@);
            assert(kws[4] == "required"@);
            assert(choices.deep_view() =~= field_start_kws());
        }
        self.matches_any(&choices)
    }

    /// Parse one message field: optional frequency, type, name, an optional
    /// `=`, the number, an optional `;`.
    pub fn consume_message_field(&mut self) -> (r: Result<MessageField, ParseError>)
        requires
            old(self).wf(),
        ensures
            final(self).wf(),
            final(self).body@ == old(self).body@,
            final(self).text@ == old(self).text@,
            spec_consume_message_field(old(self).body@, old(self).curr_index as int) matches Some(
                (fv, j),
            ) ==> r matches Ok(f) && f@ == fv && final(self).curr_index == j,
            spec_consume_message_field(old(self).body@, old(self).curr_index as int) is None
                ==> r is Err,
            r matches Err(e) ==> e.position == final(self).curr_index,
            old(self).curr_index <= final(self).curr_index,
    {
        self.skip_whitespace_or_comment();
        let frequency = self.consume_frequency();
        self.skip_whitespace_or_comment();
        let ty = match self.consume_type() {
            Ok(v) => v,
            Err(e) => return Err(e),
        };
        self.skip_whitespace_or_comment();
        let name = match self.consume_name() {
            Ok(v) => v,
            Err(e) => return Err(e),
        };
        self.skip_whitespace_or_comment();
        if !self.is_in_bounds() {
            return Err(ParseError { position: self.curr_index });
        }
        self.skip('=');
        self.skip_whitespace_or_comment();
        let position = match self.consume_number() {
            Ok(v) => v,
            Err(e) => return Err(e),
        };
        self.skip_whitespace_or_comment();
        if !self.is_in_bounds() {
            return Err(ParseError { position: self.curr_index });
        }
        self.skip(';');
        self.skip_whitespace_or_comment();

        match ty {
            Type::String => Ok(MessageField::String(frequency, name, position)),
            Type::Int32 => Ok(MessageField::Int32(frequency, name, position)),
        }
    }

    /// Parse one enum field: name, an optional `=`, the number, an optional
    /// `;`.
    pub fn consume_enum_field(&mut self) -> (r: Result<EnumField, ParseError>)
        requires
            old(self).wf(),
        ensures
            final(self).wf(),
            final(self).body@ == old(self).body@,
            final(self).text@ == old(self).text@,
            spec_consume_enum_field(old(self).body@, old(self).curr_index as int) matches Some(
                (fv, j),
            ) ==> r matches Ok(f) && f@ == fv && final(self).curr_index == j,
            spec_consume_enum_field(old(self).body@, old(self).curr_index as int) is None
                ==> r is Err,
            r matches Err(e) ==> e.position == final(self).curr_index,
            old(self).curr_index <= final(self).curr_index,
    {
        self.skip_whitespace_or_comment();
        let name = match self.consume_name() {
            Ok(v) => v,
            Err(e) => return Err(e),
        };
        self.skip_whitespace_or_comment();
        if !self.is_in_bounds() {
            return Err(ParseError { position: self.curr_index });
        }
        self.skip('=');
        self.skip_whitespace_or_comment();
        let position = match self.consume_number() {
            Ok(v) => v,
            Err(e) => return Err(e),
        };
        self.skip_whitespace_or_comment();
        if !self.is_in_bounds() {
            return Err(ParseError { position: self.curr_index });
        }
        self.skip(';');
        self.skip_whitespace_or_comment();

        Ok(EnumField { name, position })
    }

    /// Parse enum fields until the closing `}` is current. Aborts at the
    /// end of the input, and when an iteration consumes nothing at all
    /// (where an unchecked loop would never stop).
    pub fn consume_enum_fields(&mut self) -> (r: Result<Vec<EnumField>, ParseError>)
        requires
            old(self).wf(),
        ensures
            final(self).wf(),
            final(self).body@ == old(self).body@,
            final(self).text@ == old(self).text@,
            spec_consume_enum_fields(old(self).body@, old(self).curr_index as int) matches Some(
                (fvs, j),
            ) ==> r matches Ok(v) && fields_seq_view(v@) == fvs && final(self).curr_index == j,
            spec_consume_enum_fields(old(self).body@, old(self).curr_index as int) is None
                ==> r is Err,
            r matches Err(e) ==> e.position == final(self).curr_index,
            old(self).curr_index <= final(self).curr_index,
    {
        let ghost t = self.body@;
        let ghost i0 = self.curr_index as int;
        self.skip_whitespace_or_comment();
        let ghost istart = self.curr_index as int;
        proof {
            lemma_skip_wsoc_end_bounds(t, i0);
        }
        let mut fields: Vec<EnumField> = Vec::new();
        loop
            invariant
                self.wf(),
                self.body@ == t,
                t == old(self).body@,
                self.text@ == old(self).text@,
                i0 == old(self).curr_index as int,
                istart == skip_wsoc_end(t, i0),
                i0 <= istart <= self.curr_index as int,
                match spec_enum_fields_loop(t, self.curr_index as int) {
                    Some((rest, j)) => spec_enum_fields_loop(t, istart) == Some(
                        (fields_seq_view(fields@) + rest, j),
                    ),
                    None => spec_enum_fields_loop(t, istart) is None,
                },
            ensures
                self.wf(),
                self.body@ == t,
                self.text@ == old(self).text@,
                self.curr_index < t.len() && t[self.curr_index as int] == '}',
                spec_enum_fields_loop(t, istart) == Some(
                    (fields_seq_view(fields@), self.curr_index as int),
                ),
            decreases t.len() - self.curr_index,
        {
            if !self.is_in_bounds() {
                return Err(ParseError { position: self.curr_index });
            }
            if self.curr_char() == '}' {
                proof {
                    assert(spec_enum_fields_loop(t, self.curr_index as int) == Some(
                        (Seq::<EnumFieldV>::empty(), self.curr_index as int),
                    ));
                    assert(fields_seq_view(fields@) + Seq::<EnumFieldV>::empty()
                        =~= fields_seq_view(fields@));
                }
                break;
            }
            let before = self.curr_index;
            self.skip_whitespace_or_comment();
            let f = match self.consume_enum_field() {
                Ok(v) => v,
                Err(e) => return Err(e),
            };
            self.skip_whitespace_or_comment();
            if self.curr_index <= before {
                return Err(ParseError { position: self.curr_index });
            }
            proof {
                lemma_fields_seq_view_push(fields@, f);
                assert(fields_seq_view(fields@).push(f@) =~= fields_seq_view(fields@) + seq![f@]);
                match spec_enum_fields_loop(t, self.curr_index as int) {
                    None => {},
                    Some((rest, j)) => {
                        assert(fields_seq_view(fields@) + (seq![f@] + rest) =~= (fields_seq_view(
                            fields@,
                        ) + seq![f@]) + rest);
                    },
                }
            }
            fields.push(f);
        }
        self.skip_whitespace_or_comment();
        Ok(fields)
    }

    /// Parse message fields until the closing `}` is current, in the same
    /// shape as the enum-field loop.
    pub fn consume_message_fields(&mut self) -> (r: Result<Vec<MessageField>, ParseError>)
        requires
            old(self).wf(),
        ensures
            final(self).wf(),
            final(self).body@ == old(self).body@,
            final(self).text@ == old(self).text@,
            spec_consume_message_fields(old(self).body@, old(self).curr_index as int)
                matches Some((fvs, j)) ==> r matches Ok(v) && msg_fields_seq_view(v@) == fvs
                && final(self).curr_index == j,
            spec_consume_message_fields(old(self).body@, old(self).curr_index as int) is None
                ==> r is Err,
            r matches Err(e) ==> e.position == final(self).curr_index,
            old(self).curr_index <= final(self).curr_index,
    {
        let ghost t = self.body@;
        let ghost i0 = self.curr_index as int;
        self.skip_whitespace_or_comment();
        let ghost istart = self.curr_index as int;
        proof {
            lemma_skip_wsoc_end_bounds(t, i0);
        }
        let mut fields: Vec<MessageField> = Vec::new();
        loop
            invariant
                self.wf(),
                self.body@ == t,
                t == old(self).body@,
                self.text@ == old(self).text@,
                i0 == old(self).curr_index as int,
                istart == skip_wsoc_end(t, i0),
                i0 <= istart <= self.curr_index as int,
                match spec_message_fields_loop(t, self.curr_index as int) {
                    Some((rest, j)) => spec_message_fields_loop(t, istart) == Some(
                        (msg_fields_seq_view(fields@) + rest, j),
                    ),
                    None => spec_message_fields_loop(t, istart) is None,
                },
            ensures
                self.wf(),
                self.body@ == t,
                self.text@ == old(self).text@,
                self.curr_index < t.len() && t[self.curr_index as int] == '}',
                spec_message_fields_loop(t, istart) == Some(
                    (msg_fields_seq_view(fields@), self.curr_index as int),
                ),
            decreases t.len() - self.curr_index,
        {
            if !self.is_in_bounds() {
                return Err(ParseError { position: self.curr_index });
            }
            if self.curr_char() == '}' {
                proof {
                    assert(spec_message_fields_loop(t, self.curr_index as int) == Some(
                        (Seq::<MessageFieldV>::empty(), self.curr_index as int),
                    ));
                    assert(msg_fields_seq_view(fields@) + Seq::<MessageFieldV>::empty()
                        =~= msg_fields_seq_view(fields@));
                }
                break;
            }
            let before = self.curr_index;
            self.skip_whitespace_or_comment();
            let f = match self.consume_message_field() {
                Ok(v) => v,
                Err(e) => return Err(e),
            };
            self.skip_whitespace_or_comment();
            if self.curr_index <= before {
                return Err(ParseError { position: self.curr_index });
            }
            proof {
                lemma_msg_fields_seq_view_push(fields@, f);
                assert(msg_fields_seq_view(fields@).push(f@) =~= msg_fields_seq_view(fields@)
                    + seq![f@]);
                match spec_message_fields_loop(t, self.curr_index as int) {
                    None => {},
                    Some((rest, j)) => {
                        assert(msg_fields_seq_view(fields@) + (seq![f@] + rest)
                            =~= (msg_fields_seq_view(fields@) + seq![f@]) + rest);
                    },
                }
            }
            fields.push(f);
        }
        self.skip_whitespace_or_comment();
        Ok(fields)
    }

    /// Parse an `enum` block: keyword, name, `{`, the fields, `}`.
    pub fn consume_enum(&mut self) -> (r: Result<Enum, ParseError>)
        requires
            old(self).wf(),
        ensures
            final(self).wf(),
            final(self).body@ == old(self).body@,
            final(self).text@ == old(self).text@,
            spec_consume_enum(old(self).body@, old(self).curr_index as int) matches Some((ev, j))
                ==> r matches Ok(e) && e@ == ev && final(self).curr_index == j,
            spec_consume_enum(old(self).body@, old(self).curr_index as int) is None ==> r is Err,
            r matches Err(e) ==> e.position == final(self).curr_index,
            old(self).curr_index <= final(self).curr_index,
    {
        self.skip_whitespace_or_comment();
        match self.consume("enum") {
            Ok(_) => {},
            Err(e) => return Err(e),
        }
        self.skip_whitespace_or_comment();
        let name = match self.consume_name() {
            Ok(v) => v,
            Err(e) => return Err(e),
        };
        self.skip_whitespace_or_comment();
        if !self.is_in_bounds() {
            return Err(ParseError { position: self.curr_index });
        }
        self.skip('{');
        self.skip_whitespace_or_comment();
        let fields = match self.consume_enum_fields() {
            Ok(v) => v,
            Err(e) => return Err(e),
        };
        self.skip_whitespace_or_comment();
        if !self.is_in_bounds() {
            return Err(ParseError { position: self.curr_index });
        }
        self.skip('}');
        self.skip_whitespace_or_comment();

        Ok(Enum { name, fields })
    }

    /// Parse a `message` block.
    pub fn consume_message(&mut self) -> (r: Result<Message, ParseError>)
        requires
            old(self).wf(),
        ensures
            final(self).wf(),
            final(self).body@ == old(self).body@,
            final(self).text@ == old(self).text@,
            spec_consume_message(old(self).body@, old(self).curr_index as int) matches Some(
                (mv, j),
            ) ==> r matches Ok(m) && m@ == mv && final(self).curr_index == j,
            spec_consume_message(old(self).body@, old(self).curr_index as int) is None
                ==> r is Err,
            r matches Err(e) ==> e.position == final(self).curr_index,
            old(self).curr_index <= final(self).curr_index,
        decreases old(self).body@.len() - old(self).curr_index, 1int,
    {
        let message = match self.consume_compound_type(CompoundTypeMarker::Message) {
            Ok(v) => v,
            Err(e) => return Err(e),
        };
        match message {
            CompoundType::Message(message) => Ok(message),
            CompoundType::Oneof(_) => {
                proof {
                    assert(false);
                }
                Err(ParseError { position: self.curr_index })
            },
        }
    }

    /// Parse a `oneof` block.
    pub fn consume_oneof(&mut self) -> (r: Result<Oneof, ParseError>)
        requires
            old(self).wf(),
        ensures
            final(self).wf(),
            final(self).body@ == old(self).body@,
            final(self).text@ == old(self).text@,
            spec_consume_oneof(old(self).body@, old(self).curr_index as int) matches Some(
                (ov, j),
            ) ==> r matches Ok(o) && o@ == ov && final(self).curr_index == j,
            spec_consume_oneof(old(self).body@, old(self).curr_index as int) is None ==> r is Err,
            r matches Err(e) ==> e.position == final(self).curr_index,
            old(self).curr_index <= final(self).curr_index,
        decreases old(self).body@.len() - old(self).curr_index, 1int,
    {
        let oneof = match self.consume_compound_type(CompoundTypeMarker::Oneof) {
            Ok(v) => v,
            Err(e) => return Err(e),
        };
        match oneof {
            CompoundType::Oneof(oneof) => Ok(oneof),
            CompoundType::Message(_) => {
                proof {
                    assert(false);
                }
                Err(ParseError { position: self.curr_index })
            },
        }
    }

    /// Parse a `message` or `oneof` block, as `marker` says: keyword, name,
    /// `{`, then members by lookahead dispatch until none can start, then
    /// `}`. Both shapes share this one routine; only the keyword and the
    /// result wrapper differ.
    #[verifier::rlimit(60)]
    pub fn consume_compound_type(&mut self, marker: CompoundTypeMarker) -> (r: Result<
        CompoundType,
        ParseError,
    >)
        requires
            old(self).wf(),
        ensures
            final(self).wf(),
            final(self).body@ == old(self).body@,
            final(self).text@ == old(self).text@,
            marker is Message ==> match spec_consume_message(
                old(self).body@,
                old(self).curr_index as int,
            ) {
                Some((mv, j)) => {
                    &&& r matches Ok(CompoundType::Message(m)) && m@ == mv
                    &&& final(self).curr_index == j
                },
                None => r is Err,
            },
            marker is Oneof ==> match spec_consume_oneof(
                old(self).body@,
                old(self).curr_index as int,
            ) {
                Some((ov, j)) => {
                    &&& r matches Ok(CompoundType::Oneof(o)) && o@ == ov
                    &&& final(self).curr_index == j
                },
                None => r is Err,
            },
            r matches Err(e) ==> e.position == final(self).curr_index,
            old(self).curr_index <= final(self).curr_index,
        decreases old(self).body@.len() - old(self).curr_index, 0int,
    {
        let ghost t = self.body@;
        let ghost ient = self.curr_index as int;
        self.skip_whitespace_or_comment();
        proof {
            reveal_strlit("message");
            reveal_strlit("oneof");
            lemma_skip_wsoc_end_bounds(t, ient);
        }
        let kw_res = match marker {
            CompoundTypeMarker::Oneof => self.consume("oneof"),
            CompoundTypeMarker::Message => self.consume("message"),
        };
        match kw_res {
            Ok(_) => {},
            Err(e) => return Err(e),
        }
        let ghost ikw = self.curr_index as int;
        self.skip_whitespace_or_comment();
        proof {
            lemma_skip_wsoc_end_bounds(t, ikw);
            lemma_spec_consume_name_bounds(t, self.curr_index as int);
        }
        let name = match self.consume_name() {
            Ok(v) => v,
            Err(e) => return Err(e),
        };
        let ghost inm = self.curr_index as int;
        self.skip_whitespace_or_comment();
        proof {
            lemma_skip_wsoc_end_bounds(t, inm);
        }
        if !self.is_in_bounds() {
            return Err(ParseError { position: self.curr_index });
        }
        self.skip('{');
        let ghost ibr = self.curr_index as int;
        self.skip_whitespace_or_comment();
        proof {
            lemma_skip_wsoc_end_bounds(t, ibr);
        }
        let ghost imem = self.curr_index as int;
        proof {
            assert(ient < imem);
        }

        let mut enums: Vec<Enum> = Vec::new();
        let mut fields: Vec<MessageField> = Vec::new();
        let mut messages: Vec<Message> = Vec::new();
        let mut oneofs: Vec<Oneof> = Vec::new();

        loop
            invariant
                self.wf(),
                self.body@ == t,
                t == old(self).body@,
                self.text@ == old(self).text@,
                old(self).curr_index < self.curr_index as int,
                marker is Message ==> (match spec_members_loop(t, imem) {
                    None => spec_consume_message(t, old(self).curr_index as int) is None,
                    Some((ms, i7)) => spec_consume_message(t, old(self).curr_index as int) == ({
                        let i8 = skip_wsoc_end(t, i7);
                        if i8 >= t.len() {
                            None
                        } else {
                            Some(
                                (
                                    message_from_parts(name@, ms),
                                    skip_wsoc_end(t, spec_skip(t, i8, '}')),
                                ),
                            )
                        }
                    }),
                }),
                marker is Oneof ==> (match spec_members_loop(t, imem) {
                    None => spec_consume_oneof(t, old(self).curr_index as int) is None,
                    Some((ms, i7)) => spec_consume_oneof(t, old(self).curr_index as int) == ({
                        let i8 = skip_wsoc_end(t, i7);
                        if i8 >= t.len() {
                            None
                        } else {
                            Some(
                                (
                                    oneof_from_parts(name@, ms),
                                    skip_wsoc_end(t, spec_skip(t, i8, '}')),
                                ),
                            )
                        }
                    }),
                }),
                match spec_members_loop(t, self.curr_index as int) {
                    Some((rest, j)) => spec_members_loop(t, imem) == Some(
                        (
                            members_concat(
                                members_of(fields@, enums@, messages@, oneofs@),
                                rest,
                            ),
                            j,
                        ),
                    ),
                    None => spec_members_loop(t, imem) is None,
                },
            ensures
                self.wf(),
                self.body@ == t,
                self.text@ == old(self).text@,
                spec_members_loop(t, imem) == Some(
                    (members_of(fields@, enums@, messages@, oneofs@), self.curr_index as int),
                ),
            decreases t.len() - self.curr_index,
        {
            if !(self.is_message_field() || self.is_enum() || self.is_message()
                || self.is_oneof()) {
                proof {
                    let cur = self.curr_index as int;
                    assert(spec_members_loop(t, cur) == Some((members_empty(), cur)));
                    assert(members_concat(
                        members_of(fields@, enums@, messages@, oneofs@),
                        members_empty(),
                    ) =~~= members_of(fields@, enums@, messages@, oneofs@));
                }
                break;
            }
            let before = self.curr_index;
            self.skip_whitespace_or_comment();
            proof {
                lemma_skip_wsoc_end_bounds(t, before as int);
            }

            if self.is_message_field() {
                let f = match self.consume_message_field() {
                    Ok(v) => v,
                    Err(e) => return Err(e),
                };
                self.skip_whitespace_or_comment();
                if self.curr_index <= before {
                    return Err(ParseError { position: self.curr_index });
                }
                proof {
                    lemma_msg_fields_seq_view_push(fields@, f);
                    match spec_members_loop(t, self.curr_index as int) {
                        None => {},
                        Some((rest, j)) => {
                            assert(msg_fields_seq_view(fields@) + (seq![f@] + rest.fields)
                                =~= msg_fields_seq_view(fields@.push(f)) + rest.fields);
                        },
                    }
                }
                fields.push(f);
            } else if self.is_enum() {
                let e = match self.consume_enum() {
                    Ok(v) => v,
                    Err(e) => return Err(e),
                };
                self.skip_whitespace_or_comment();
                if self.curr_index <= before {
                    return Err(ParseError { position: self.curr_index });
                }
                proof {
                    lemma_enums_seq_view_push(enums@, e);
                    match spec_members_loop(t, self.curr_index as int) {
                        None => {},
                        Some((rest, j)) => {
                            assert(enums_seq_view(enums@) + (seq![e@] + rest.enums)
                                =~= enums_seq_view(enums@.push(e)) + rest.enums);
                        },
                    }
                }
                enums.push(e);
            } else if self.is_message() {
                let m = match self.consume_message() {
                    Ok(v) => v,
                    Err(e) => return Err(e),
                };
                self.skip_whitespace_or_comment();
                if self.curr_index <= before {
                    return Err(ParseError { position: self.curr_index });
                }
                proof {
                    lemma_msgs_seq_view_push(messages@, m);
                    match spec_members_loop(t, self.curr_index as int) {
                        None => {},
                        Some((rest, j)) => {
                            assert(msgs_seq_view(messages@) + (seq![msg_view(m)] + rest.messages)
                                =~= msgs_seq_view(messages@.push(m)) + rest.messages);
                        },
                    }
                }
                messages.push(m);
            } else if self.is_oneof() {
                let o = match self.consume_oneof() {
                    Ok(v) => v,
                    Err(e) => return Err(e),
                };
                self.skip_whitespace_or_comment();
                if self.curr_index <= before {
                    return Err(ParseError { position: self.curr_index });
                }
                proof {
                    lemma_oneofs_seq_view_push(oneofs@, o);
                    match spec_members_loop(t, self.curr_index as int) {
                        None => {},
                        Some((rest, j)) => {
                            assert(oneofs_seq_view(oneofs@) + (seq![oneof_view(o)] + rest.oneofs)
                                =~= oneofs_seq_view(oneofs@.push(o)) + rest.oneofs);
                        },
                    }
                }
                oneofs.push(o);
            } else {
                return Err(ParseError { position: self.curr_index });
            }
        }

        self.skip_whitespace_or_comment();
        if !self.is_in_bounds() {
            return Err(ParseError { position: self.curr_index });
        }
        self.skip('}');
        self.skip_whitespace_or_comment();

        match marker {
            CompoundTypeMarker::Message => Ok(
                CompoundType::Message(Message { name, messages, enums, fields, oneofs }),
            ),
            CompoundTypeMarker::Oneof => Ok(
                CompoundType::Oneof(Oneof { name, messages, enums, fields, oneofs }),
            ),
        }
    }
}

} // verus!
