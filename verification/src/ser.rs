//! The encoder: walks a typed value top-down and emits indented, quoted,
//! escaped text into an accumulating buffer.

use vstd::prelude::*;
use vstd::string::{StrSliceExecFns, StringExecFns};

use crate::error::{Error, ErrorV};
use crate::num::{dec_digits, fmt_i64_into, fmt_u64_into, int_text};
use crate::text::{escape_char, escape_seq, quote_item, tabs, trim_tab};
use crate::value::{depth_le, lemma_esize_elem, lemma_ventries, ventries, vsize, vview, Value, ValueV};

verus! {

broadcast use vstd::std_specs::vec::group_vec_axioms, vstd::seq::group_seq_axioms;

/// The text of a scalar leaf, before quoting.
pub open spec fn scalar_item(v: ValueV) -> Seq<char> {
    match v {
        ValueV::Bool(b) => if b {
            seq!['1']
        } else {
            seq!['0']
        },
        ValueV::I8(n) => int_text(n as int),
        ValueV::I16(n) => int_text(n as int),
        ValueV::I32(n) => int_text(n as int),
        ValueV::I64(n) => int_text(n as int),
        ValueV::U8(n) => dec_digits(n as nat),
        ValueV::U16(n) => dec_digits(n as nat),
        ValueV::U32(n) => dec_digits(n as nat),
        ValueV::U64(n) => dec_digits(n as nat),
        ValueV::Chr(c) => seq![c],
        ValueV::Str(s) => s,
        ValueV::Tag(t) => t,
        _ => Seq::empty(),
    }
}

/// Whether encoding `v` at indent `ind` begins by trimming a pending tab:
/// every group does, except a record at the top of a document, whose
/// declared name is written first.
pub open spec fn trims(v: ValueV, ind: nat) -> bool
    decreases v,
{
    match v {
        ValueV::Opt(x) => trims(*x, ind),
        ValueV::Newtype(_, x) => trims(*x, ind),
        ValueV::Record(_, _) => ind > 0,
        ValueV::Dict(_) => true,
        _ => false,
    }
}

/// A record's declared name as written at the top of a document: quoted
/// verbatim, without escaping.
pub open spec fn raw_quote(n: Seq<char>) -> Seq<char> {
    seq!['"'] + n + seq!['"']
}

/// The exact text encoding of `v` at indent level `ind`. A record at indent
/// zero is preceded by its declared name; groups open with a newline,
/// indentation and `{`, and close with indentation and `}`.
pub open spec fn val_text(v: ValueV, ind: nat) -> Seq<char>
    decreases v,
{
    match v {
        ValueV::Opt(x) => val_text(*x, ind),
        ValueV::Newtype(_, x) => val_text(*x, ind),
        ValueV::Record(n, es) => (if ind == 0 {
            raw_quote(n)
        } else {
            Seq::empty()
        }) + seq!['\n'] + tabs(ind) + seq!['{', '\n'] + entries_text(es, ind + 1) + tabs(ind)
            + seq!['}'],
        ValueV::Dict(es) => seq!['\n'] + tabs(ind) + seq!['{', '\n'] + entries_text(es, ind + 1)
            + tabs(ind) + seq!['}'],
        _ => quote_item(scalar_item(v)),
    }
}

/// One group entry: indentation, the quoted key, a tab unless the value is
/// itself a group (the tab is then retranscribed by the group opening), the
/// value, and a newline.
pub open spec fn entry_text(e: (Seq<char>, ValueV), ind: nat) -> Seq<char>
    decreases e,
{
    tabs(ind) + quote_item(e.0) + (if trims(e.1, ind) {
        Seq::<char>::empty()
    } else {
        seq!['\t']
    }) + val_text(e.1, ind) + seq!['\n']
}

/// The entries of a group, one after the other.
pub open spec fn entries_text(es: Seq<(Seq<char>, ValueV)>, ind: nat) -> Seq<char>
    decreases es,
{
    if es.len() == 0 {
        Seq::empty()
    } else {
        entry_text(es[0], ind) + entries_text(es.subrange(1, es.len() as int), ind)
    }
}

/// Escaping distributes over concatenation.
pub proof fn lemma_escape_append(a: Seq<char>, b: Seq<char>)
    ensures
        escape_seq(a + b) == escape_seq(a) + escape_seq(b),
    decreases a.len(),
{
    if a.len() == 0 {
        assert(a + b =~= b);
        assert(escape_seq(a) + escape_seq(b) =~= escape_seq(b));
    } else {
        assert((a + b).drop_first() =~= a.drop_first() + b);
        lemma_escape_append(a.drop_first(), b);
        assert(escape_char((a + b)[0]) + (escape_seq(a.drop_first()) + escape_seq(b)) =~= (
        escape_char(a[0]) + escape_seq(a.drop_first())) + escape_seq(b));
    }
}

/// Escaping one more character appends its escape.
pub proof fn lemma_escape_take(s: Seq<char>, i: int)
    requires
        0 <= i < s.len(),
    ensures
        escape_seq(s.take(i + 1)) == escape_seq(s.take(i)) + escape_char(s[i]),
{
    assert(s.take(i + 1) =~= s.take(i) + seq![s[i]]);
    lemma_escape_append(s.take(i), seq![s[i]]);
    assert(seq![s[i]].drop_first() =~= Seq::<char>::empty());
    assert(escape_seq(Seq::<char>::empty()) =~= Seq::<char>::empty());
    assert(escape_seq(seq![s[i]]) == escape_char(s[i]) + escape_seq(Seq::<char>::empty()));
    assert(escape_char(s[i]) + Seq::<char>::empty() =~= escape_char(s[i]));
}

/// Entry texts concatenate entrywise.
pub proof fn lemma_entries_append(a: Seq<(Seq<char>, ValueV)>, b: Seq<(Seq<char>, ValueV)>, ind: nat)
    ensures
        entries_text(a + b, ind) == entries_text(a, ind) + entries_text(b, ind),
    decreases a.len(),
{
    if a.len() == 0 {
        assert(a + b =~= b);
        assert(entries_text(a, ind) + entries_text(b, ind) =~= entries_text(b, ind));
    } else {
        assert((a + b).subrange(1, (a + b).len() as int) =~= a.subrange(1, a.len() as int) + b);
        lemma_entries_append(a.subrange(1, a.len() as int), b, ind);
        assert(entry_text((a + b)[0], ind) + (entries_text(a.subrange(1, a.len() as int), ind)
            + entries_text(b, ind)) =~= (entry_text(a[0], ind) + entries_text(
            a.subrange(1, a.len() as int),
            ind,
        )) + entries_text(b, ind));
    }
}

/// Writing one more entry appends its text.
pub proof fn lemma_entries_take(es: Seq<(Seq<char>, ValueV)>, i: int, ind: nat)
    requires
        0 <= i < es.len(),
    ensures
        entries_text(es.take(i + 1), ind) == entries_text(es.take(i), ind) + entry_text(
            es[i],
            ind,
        ),
{
    assert(es.take(i + 1) =~= es.take(i) + seq![es[i]]);
    lemma_entries_append(es.take(i), seq![es[i]], ind);
    assert(seq![es[i]].subrange(1, 1) =~= Seq::<(Seq<char>, ValueV)>::empty());
    assert(entries_text(seq![es[i]], ind) == entry_text(es[i], ind) + entries_text(
        Seq::<(Seq<char>, ValueV)>::empty(),
        ind,
    ));
    assert(entry_text(es[i], ind) + Seq::<char>::empty() =~= entry_text(es[i], ind));
}

/// Appends one character to the buffer.
///
/// Relies on `String::push`: the string gains exactly that character at its
/// end.
#[verifier::external_body]
fn push_char(out: &mut String, c: char)
    ensures
        final(out)@ == old(out)@ + seq![c],
{
    out.push(c);
}

/// A structure for serializing values into the text format.
///
/// Holds the accumulating output buffer and the current indent level, which
/// always equals the nesting depth of open-but-unclosed groups.
pub struct Serializer {
    /// The accumulating output buffer.
    pub output: String,
    /// The current indent level: the nesting depth of open groups.
    pub indent_level: usize,
}

/// Serialize the given value as a complete document.
///
/// The result carries no trailing newline. The depth bound is a machine
/// limit: the indent level is held in a `usize`.
pub fn to_string(value: &Value) -> (r: Result<String, Error>)
    requires
        depth_le(vview(*value), usize::MAX as int),
    ensures
        r matches Ok(t) && t@ == val_text(vview(*value), 0),
{
    let mut serializer = Serializer { output: String::new(), indent_level: 0 };
    serializer.encode_value(value);
    proof {
        assert(trim_tab(Seq::<char>::empty()) =~= Seq::<char>::empty());
        assert(Seq::<char>::empty() + val_text(vview(*value), 0) =~= val_text(vview(*value), 0));
    }
    Ok(serializer.output)
}

impl Serializer {
    /// Appends one tab per open indent level.
    fn append_tabs(&mut self)
        ensures
            final(self).output@ == old(self).output@ + tabs(old(self).indent_level as nat),
            final(self).indent_level == old(self).indent_level,
    {
        let mut j: usize = 0;
        proof {
            assert(self.output@ =~= old(self).output@ + tabs(0));
        }
        while j < self.indent_level
            invariant
                j <= self.indent_level,
                self.indent_level == old(self).indent_level,
                self.output@ == old(self).output@ + tabs(j as nat),
            decreases self.indent_level - j,
        {
            push_char(&mut self.output, '\t');
            j = j + 1;
            proof {
                assert(self.output@ =~= old(self).output@ + tabs(j as nat));
            }
        }
    }

    /// Appends the escape of one character.
    fn escape_char_into(&mut self, c: char)
        ensures
            final(self).output@ == old(self).output@ + escape_char(c),
            final(self).indent_level == old(self).indent_level,
    {
        if c == '\\' {
            push_char(&mut self.output, '\\');
            push_char(&mut self.output, '\\');
        } else if c == '\n' {
            push_char(&mut self.output, '\\');
            push_char(&mut self.output, 'n');
        } else if c == '\t' {
            push_char(&mut self.output, '\\');
            push_char(&mut self.output, 't');
        } else if c == '"' {
            push_char(&mut self.output, '\\');
            push_char(&mut self.output, '"');
        } else {
            push_char(&mut self.output, c);
        }
        proof {
            assert(self.output@ =~= old(self).output@ + escape_char(c));
        }
    }

    /// Encodes a string: escaped, in order — backslash first, so that the
    /// backslashes the other replacements introduce are not doubled — and
    /// wrapped in double quotes.
    pub fn serialize_str(&mut self, v: &str) -> (r: Result<(), Error>)
        ensures
            final(self).output@ == old(self).output@ + quote_item(v@),
            final(self).indent_level == old(self).indent_level,
            r is Ok,
    {
        push_char(&mut self.output, '"');
        let n = v.unicode_len();
        proof {
            assert(v@.len() <= usize::MAX);
        }
        let ghost mid = self.output@;
        let mut i: usize = 0;
        proof {
            assert(escape_seq(v@.take(0)) =~= Seq::<char>::empty());
            assert(self.output@ =~= mid + escape_seq(v@.take(0)));
        }
        while i < n
            invariant
                i <= n,
                n == v@.len(),
                self.indent_level == old(self).indent_level,
                self.output@ == mid + escape_seq(v@.take(i as int)),
            decreases n - i,
        {
            let c = v.get_char(i);
            self.escape_char_into(c);
            proof {
                lemma_escape_take(v@, i as int);
            }
            i = i + 1;
        }
        push_char(&mut self.output, '"');
        proof {
            assert(v@.take(n as int) =~= v@);
            assert(self.output@ =~= old(self).output@ + quote_item(v@));
        }
        Ok(())
    }

    /// Encodes a boolean as the quoted literal `"1"` or `"0"`.
    pub fn serialize_bool(&mut self, v: bool) -> (r: Result<(), Error>)
        ensures
            final(self).output@ == old(self).output@ + quote_item(scalar_item(ValueV::Bool(v))),
            final(self).indent_level == old(self).indent_level,
            r is Ok,
    {
        push_char(&mut self.output, '"');
        push_char(&mut self.output, if v { '1' } else { '0' });
        push_char(&mut self.output, '"');
        proof {
            lemma_escape_plain(scalar_item(ValueV::Bool(v)));
            assert(self.output@ =~= old(self).output@ + quote_item(scalar_item(ValueV::Bool(v))));
        }
        Ok(())
    }

    /// Encodes a signed integer: widened, written in decimal, quoted.
    pub fn serialize_i64(&mut self, v: i64) -> (r: Result<(), Error>)
        ensures
            final(self).output@ == old(self).output@ + quote_item(int_text(v as int)),
            final(self).indent_level == old(self).indent_level,
            r is Ok,
    {
        push_char(&mut self.output, '"');
        fmt_i64_into(&mut self.output, v);
        push_char(&mut self.output, '"');
        proof {
            crate::num::lemma_int_text(v as int);
            assert forall|k: int| 0 <= k < int_text(v as int).len() implies #[trigger] int_text(
                v as int,
            )[k] != '\\' && int_text(v as int)[k] != '\n' && int_text(v as int)[k] != '\t'
                && int_text(v as int)[k] != '"' by {
                if int_text(v as int)[k] != '-' {
                    assert(crate::num::is_digit(int_text(v as int)[k]));
                }
            }
            lemma_escape_plain(int_text(v as int));
            assert(self.output@ =~= old(self).output@ + quote_item(int_text(v as int)));
        }
        Ok(())
    }

    /// Encodes an unsigned integer: widened, written in decimal, quoted.
    pub fn serialize_u64(&mut self, v: u64) -> (r: Result<(), Error>)
        ensures
            final(self).output@ == old(self).output@ + quote_item(dec_digits(v as nat)),
            final(self).indent_level == old(self).indent_level,
            r is Ok,
    {
        push_char(&mut self.output, '"');
        fmt_u64_into(&mut self.output, v);
        push_char(&mut self.output, '"');
        proof {
            crate::num::lemma_dec_digits(v as nat);
            assert forall|k: int| 0 <= k < dec_digits(v as nat).len() implies #[trigger] dec_digits(
                v as nat,
            )[k] != '\\' && dec_digits(v as nat)[k] != '\n' && dec_digits(v as nat)[k] != '\t'
                && dec_digits(v as nat)[k] != '"' by {
                assert(crate::num::is_digit(dec_digits(v as nat)[k]));
            }
            lemma_escape_plain(dec_digits(v as nat));
            assert(self.output@ =~= old(self).output@ + quote_item(dec_digits(v as nat)));
        }
        Ok(())
    }

    /// Encodes a character as a single-character string.
    pub fn serialize_char(&mut self, v: char) -> (r: Result<(), Error>)
        ensures
            final(self).output@ == old(self).output@ + quote_item(seq![v]),
            final(self).indent_level == old(self).indent_level,
            r is Ok,
    {
        push_char(&mut self.output, '"');
        self.escape_char_into(v);
        push_char(&mut self.output, '"');
        proof {
            assert(seq![v].drop_first() =~= Seq::<char>::empty());
            assert(escape_seq(Seq::<char>::empty()) =~= Seq::<char>::empty());
            assert(escape_seq(seq![v]) =~= escape_char(v)) by {
                assert(escape_char(v) + Seq::<char>::empty() =~= escape_char(v));
            }
            assert(self.output@ =~= old(self).output@ + quote_item(seq![v]));
        }
        Ok(())
    }

    /// Encodes a unit-like enum variant as a quoted string of its name.
    pub fn serialize_unit_variant(&mut self, variant: &str) -> (r: Result<(), Error>)
        ensures
            final(self).output@ == old(self).output@ + quote_item(variant@),
            final(self).indent_level == old(self).indent_level,
            r is Ok,
    {
        self.serialize_str(variant)
    }

    /// Opens a group: a pending key-separator tab is trimmed, then a
    /// newline, the current indentation and `{` are written, and the indent
    /// level rises.
    pub fn serialize_map(&mut self) -> (r: Result<(), Error>)
        requires
            old(self).indent_level < usize::MAX,
        ensures
            final(self).output@ == trim_tab(old(self).output@) + seq!['\n'] + tabs(
                old(self).indent_level as nat,
            ) + seq!['{', '\n'],
            final(self).indent_level == old(self).indent_level + 1,
            r is Ok,
    {
        let n = self.output.as_str().unicode_len();
        if n > 0 {
            if self.output.as_str().get_char(n - 1) == '\t' {
                let t = self.output.as_str().substring_char(0, n - 1).to_owned();
                proof {
                    assert(self.output@.subrange(0, n - 1) =~= trim_tab(self.output@));
                }
                self.output = t;
            }
        }
        push_char(&mut self.output, '\n');
        self.append_tabs();
        push_char(&mut self.output, '{');
        push_char(&mut self.output, '\n');
        self.indent_level = self.indent_level + 1;
        proof {
            assert(self.output@ =~= trim_tab(old(self).output@) + seq!['\n'] + tabs(
                old(self).indent_level as nat,
            ) + seq!['{', '\n']);
        }
        Ok(())
    }

    /// Opens a record group: at the top of a document its declared name is
    /// first written verbatim in quotes.
    pub fn serialize_struct(&mut self, name: &str) -> (r: Result<(), Error>)
        requires
            old(self).indent_level < usize::MAX,
        ensures
            final(self).output@ == trim_tab(
                old(self).output@ + (if old(self).indent_level == 0 {
                    raw_quote(name@)
                } else {
                    Seq::<char>::empty()
                }),
            ) + seq!['\n'] + tabs(old(self).indent_level as nat) + seq!['{', '\n'],
            final(self).indent_level == old(self).indent_level + 1,
            r is Ok,
    {
        let ghost pre = self.output@;
        if self.indent_level == 0 {
            push_char(&mut self.output, '"');
            self.output.append(name);
            push_char(&mut self.output, '"');
            proof {
                assert(self.output@ =~= pre + raw_quote(name@));
            }
        } else {
            proof {
                assert(self.output@ =~= pre + Seq::<char>::empty());
            }
        }
        self.serialize_map()
    }

    /// Writes a group entry's key: indentation, the key as a quoted escaped
    /// string, and the key-separator tab.
    pub fn serialize_key(&mut self, key: &str) -> (r: Result<(), Error>)
        ensures
            final(self).output@ == old(self).output@ + tabs(old(self).indent_level as nat) + quote_item(
                key@,
            ) + seq!['\t'],
            final(self).indent_level == old(self).indent_level,
            r is Ok,
    {
        self.append_tabs();
        let r = self.serialize_str(key);
        push_char(&mut self.output, '\t');
        proof {
            assert(self.output@ =~= old(self).output@ + tabs(old(self).indent_level as nat)
                + quote_item(key@) + seq!['\t']);
        }
        r
    }

    /// Writes a group entry's value and the entry-terminating newline.
    pub fn serialize_value(&mut self, value: &Value) -> (r: Result<(), Error>)
        requires
            depth_le(vview(*value), usize::MAX - old(self).indent_level),
        ensures
            final(self).output@ == (if trims(vview(*value), old(self).indent_level as nat) {
                trim_tab(old(self).output@)
            } else {
                old(self).output@
            }) + val_text(vview(*value), old(self).indent_level as nat) + seq!['\n'],
            final(self).indent_level == old(self).indent_level,
            r is Ok,
        decreases vsize(vview(*value)), 2int,
    {
        let r = self.encode_value(value);
        push_char(&mut self.output, '\n');
        r
    }

    /// Writes one record field: its key, then its value.
    pub fn serialize_field(&mut self, key: &str, value: &Value) -> (r: Result<(), Error>)
        requires
            depth_le(vview(*value), usize::MAX - old(self).indent_level),
        ensures
            final(self).output@ == old(self).output@ + entry_text(
                (key@, vview(*value)),
                old(self).indent_level as nat,
            ),
            final(self).indent_level == old(self).indent_level,
            r is Ok,
        decreases vsize(vview(*value)), 3int,
    {
        let r1 = self.serialize_key(key);
        let ghost o1 = self.output@;
        let r2 = self.serialize_value(value);
        proof {
            if trims(vview(*value), old(self).indent_level as nat) {
                assert(o1[o1.len() - 1] == '\t');
                assert(trim_tab(o1) =~= old(self).output@ + tabs(old(self).indent_level as nat)
                    + quote_item(key@));
            }
            assert(self.output@ =~= old(self).output@ + entry_text(
                (key@, vview(*value)),
                old(self).indent_level as nat,
            ));
        }
        Ok(())
    }

    /// Closes a group: the indent level falls and the closing line is the
    /// remaining indentation followed by `}`.
    pub fn end(&mut self) -> (r: Result<(), Error>)
        ensures
            final(self).indent_level == if old(self).indent_level > 0 {
                old(self).indent_level - 1
            } else {
                0
            },
            final(self).output@ == old(self).output@ + tabs(final(self).indent_level as nat) + seq!['}'],
            r is Ok,
    {
        if self.indent_level > 0 {
            self.indent_level = self.indent_level - 1;
        }
        self.append_tabs();
        push_char(&mut self.output, '}');
        proof {
            assert(self.output@ =~= old(self).output@ + tabs(self.indent_level as nat)
                + seq!['}']);
        }
        Ok(())
    }

    /// Encodes one value at the current indent level, dispatching on its
    /// kind exactly as the generic value-introspection contract would.
    #[verifier::rlimit(80)]
    pub fn encode_value(&mut self, value: &Value) -> (r: Result<(), Error>)
        requires
            depth_le(vview(*value), usize::MAX - old(self).indent_level),
        ensures
            final(self).output@ == (if trims(vview(*value), old(self).indent_level as nat) {
                trim_tab(old(self).output@)
            } else {
                old(self).output@
            }) + val_text(vview(*value), old(self).indent_level as nat),
            final(self).indent_level == old(self).indent_level,
            r is Ok,
        decreases vsize(vview(*value)), 0int,
    {
        match value {
            Value::Bool(b) => self.serialize_bool(*b),
            Value::I8(n) => {
                let r = self.serialize_i64(*n as i64);
                proof {
                    assert(self.output@ =~= old(self).output@ + val_text(
                        vview(*value),
                        old(self).indent_level as nat,
                    ));
                }
                r
            },
            Value::I16(n) => {
                let r = self.serialize_i64(*n as i64);
                proof {
                    assert(self.output@ =~= old(self).output@ + val_text(
                        vview(*value),
                        old(self).indent_level as nat,
                    ));
                }
                r
            },
            Value::I32(n) => {
                let r = self.serialize_i64(*n as i64);
                proof {
                    assert(self.output@ =~= old(self).output@ + val_text(
                        vview(*value),
                        old(self).indent_level as nat,
                    ));
                }
                r
            },
            Value::I64(n) => self.serialize_i64(*n),
            Value::U8(n) => {
                let r = self.serialize_u64(*n as u64);
                proof {
                    assert(self.output@ =~= old(self).output@ + val_text(
                        vview(*value),
                        old(self).indent_level as nat,
                    ));
                }
                r
            },
            Value::U16(n) => {
                let r = self.serialize_u64(*n as u64);
                proof {
                    assert(self.output@ =~= old(self).output@ + val_text(
                        vview(*value),
                        old(self).indent_level as nat,
                    ));
                }
                r
            },
            Value::U32(n) => {
                let r = self.serialize_u64(*n as u64);
                proof {
                    assert(self.output@ =~= old(self).output@ + val_text(
                        vview(*value),
                        old(self).indent_level as nat,
                    ));
                }
                r
            },
            Value::U64(n) => self.serialize_u64(*n),
            Value::Chr(c) => self.serialize_char(*c),
            Value::Str(s) => self.serialize_str(s.as_str()),
            Value::Tag(t) => self.serialize_unit_variant(t.as_str()),
            Value::Opt(inner) => self.serialize_some(inner),
            Value::Newtype(name, inner) => self.serialize_newtype_struct(name.as_str(), inner),
            Value::Record(name, es) => {
                let r0 = self.serialize_struct(name.as_str());
                let ghost vv = vview(*value);
                let ghost ind0 = old(self).indent_level as nat;
                let ghost o1 = self.output@;
                let ghost evs = ventries(es@);
                proof {
                    lemma_ventries(es@);
                    assert(evs.take(0) =~= Seq::<(Seq<char>, ValueV)>::empty());
                    assert(self.output@ =~= o1 + entries_text(evs.take(0), ind0 + 1));
                    assert forall|k: int| 0 <= k < es@.len() implies depth_le(
                        vview(#[trigger] es@[k].1),
                        usize::MAX - ind0 - 1,
                    ) by {
                        assert(evs[k].1 == vview(es@[k].1));
                        assert(depth_le(evs[k].1, usize::MAX - ind0 - 1));
                    }
                }
                let mut i: usize = 0;
                while i < es.len()
                    invariant
                        i <= es.len(),
                        vv == vview(*value),
                        vsize(vv) == 1 + crate::value::esize(evs),
                        evs == ventries(es@),
                        evs.len() == es@.len(),
                        forall|k: int|
                            0 <= k < es@.len() ==> #[trigger] evs[k] == (
                            es@[k].0@,
                            vview(es@[k].1),
                            ),
                        self.indent_level == ind0 + 1,
                        self.indent_level <= usize::MAX,
                        self.output@ == o1 + entries_text(evs.take(i as int), ind0 + 1),
                        forall|k: int|
                            0 <= k < es@.len() ==> depth_le(
                                vview(#[trigger] es@[k].1),
                                usize::MAX - ind0 - 1,
                            ),
                    decreases es.len() - i,
                {
                    proof {
                        lemma_esize_elem(evs, i as int);
                        assert(vsize(vview(es@[i as int].1)) < vsize(vv));
                    }
                    let r1 = self.serialize_field(es[i].0.as_str(), &es[i].1);
                    proof {
                        lemma_entries_take(evs, i as int, ind0 + 1);
                        assert(self.output@ =~= o1 + entries_text(evs.take(i + 1), ind0 + 1));
                    }
                    i = i + 1;
                }
                let r2 = self.end();
                proof {
                    assert(evs.take(es@.len() as int) =~= evs);
                    if ind0 == 0 {
                        assert((old(self).output@ + raw_quote(name@)).last() == '"');
                        assert(trim_tab(old(self).output@ + raw_quote(name@)) == old(self).output@
                            + raw_quote(name@));
                        assert(self.output@ =~= old(self).output@ + val_text(vv, ind0));
                    } else {
                        assert(trim_tab(old(self).output@ + Seq::<char>::empty()) == trim_tab(
                            old(self).output@,
                        )) by {
                            assert(old(self).output@ + Seq::<char>::empty() =~= old(self).output@);
                        }
                        assert(self.output@ =~= trim_tab(old(self).output@) + val_text(vv, ind0));
                    }
                }
                Ok(())
            },
            Value::Dict(es) => {
                let r0 = self.serialize_map();
                let ghost vv = vview(*value);
                let ghost ind0 = old(self).indent_level as nat;
                let ghost o1 = self.output@;
                let ghost evs = ventries(es@);
                proof {
                    lemma_ventries(es@);
                    assert(evs.take(0) =~= Seq::<(Seq<char>, ValueV)>::empty());
                    assert(self.output@ =~= o1 + entries_text(evs.take(0), ind0 + 1));
                    assert forall|k: int| 0 <= k < es@.len() implies depth_le(
                        vview(#[trigger] es@[k].1),
                        usize::MAX - ind0 - 1,
                    ) by {
                        assert(evs[k].1 == vview(es@[k].1));
                        assert(depth_le(evs[k].1, usize::MAX - ind0 - 1));
                    }
                }
                let mut i: usize = 0;
                while i < es.len()
                    invariant
                        i <= es.len(),
                        vv == vview(*value),
                        vsize(vv) == 1 + crate::value::esize(evs),
                        evs == ventries(es@),
                        evs.len() == es@.len(),
                        forall|k: int|
                            0 <= k < es@.len() ==> #[trigger] evs[k] == (
                            es@[k].0@,
                            vview(es@[k].1),
                            ),
                        self.indent_level == ind0 + 1,
                        self.indent_level <= usize::MAX,
                        self.output@ == o1 + entries_text(evs.take(i as int), ind0 + 1),
                        forall|k: int|
                            0 <= k < es@.len() ==> depth_le(
                                vview(#[trigger] es@[k].1),
                                usize::MAX - ind0 - 1,
                            ),
                    decreases es.len() - i,
                {
                    proof {
                        lemma_esize_elem(evs, i as int);
                        assert(vsize(vview(es@[i as int].1)) < vsize(vv));
                    }
                    let r1 = self.serialize_field(es[i].0.as_str(), &es[i].1);
                    proof {
                        lemma_entries_take(evs, i as int, ind0 + 1);
                        assert(self.output@ =~= o1 + entries_text(evs.take(i + 1), ind0 + 1));
                    }
                    i = i + 1;
                }
                let r2 = self.end();
                proof {
                    assert(evs.take(es@.len() as int) =~= evs);
                    assert(self.output@ =~= trim_tab(old(self).output@) + val_text(vv, ind0));
                }
                Ok(())
            },
        }
    }

    /// Encodes a present optional: forwards to the wrapped value.
    pub fn serialize_some(&mut self, value: &Value) -> (r: Result<(), Error>)
        requires
            depth_le(vview(*value), usize::MAX - old(self).indent_level),
        ensures
            final(self).output@ == (if trims(vview(*value), old(self).indent_level as nat) {
                trim_tab(old(self).output@)
            } else {
                old(self).output@
            }) + val_text(vview(*value), old(self).indent_level as nat),
            final(self).indent_level == old(self).indent_level,
            r is Ok,
        decreases vsize(vview(*value)), 1int,
    {
        self.encode_value(value)
    }

    /// Encodes a single-field wrapper type: forwards to the wrapped value
    /// with no extra markup.
    pub fn serialize_newtype_struct(&mut self, _name: &str, value: &Value) -> (r: Result<
        (),
        Error,
    >)
        requires
            depth_le(vview(*value), usize::MAX - old(self).indent_level),
        ensures
            final(self).output@ == (if trims(vview(*value), old(self).indent_level as nat) {
                trim_tab(old(self).output@)
            } else {
                old(self).output@
            }) + val_text(vview(*value), old(self).indent_level as nat),
            final(self).indent_level == old(self).indent_level,
            r is Ok,
        decreases vsize(vview(*value)), 1int,
    {
        self.encode_value(value)
    }
}

/// Escaping a decimal text changes nothing: digits and the minus sign are
/// not escaped.
pub proof fn lemma_escape_plain(s: Seq<char>)
    requires
        forall|i: int|
            0 <= i < s.len() ==> #[trigger] s[i] != '\\' && s[i] != '\n' && s[i] != '\t' && s[i]
                != '"',
    ensures
        escape_seq(s) == s,
    decreases s.len(),
{
    if s.len() > 0 {
        lemma_escape_plain(s.drop_first());
        assert(escape_char(s[0]) =~= seq![s[0]]);
        assert(seq![s[0]] + s.drop_first() =~= s);
    } else {
        assert(escape_seq(s) =~= s);
    }
}


impl Serializer {
    /// Rejected: byte arrays have no textual form in the format. Nothing is
    /// written.
    pub fn serialize_bytes(&mut self, _v: &[u8]) -> (r: Result<(), Error>)
        ensures
            *final(self) == *old(self),
            r matches Err(e) && e.deep_view() == ErrorV::Message("can't serialize arrays in VDF"@),
    {
        Err(Error::Message(String::from_str("can't serialize arrays in VDF")))
    }

    /// Rejected: an absent optional has no textual form in the format.
    /// Nothing is written.
    pub fn serialize_none(&mut self) -> (r: Result<(), Error>)
        ensures
            *final(self) == *old(self),
            r matches Err(e) && e.deep_view() == ErrorV::Message("can't serialize None in VDF"@),
    {
        Err(Error::Message(String::from_str("can't serialize None in VDF")))
    }

    /// Rejected: the unit value has no textual form in the format. Nothing
    /// is written.
    pub fn serialize_unit(&mut self) -> (r: Result<(), Error>)
        ensures
            *final(self) == *old(self),
            r matches Err(e) && e.deep_view() == ErrorV::Message("can't serialize () in VDF"@),
    {
        Err(Error::Message(String::from_str("can't serialize () in VDF")))
    }

    /// Rejected: a zero-field record type encodes like the unit value.
    /// Nothing is written.
    pub fn serialize_unit_struct(&mut self, _name: &str) -> (r: Result<(), Error>)
        ensures
            *final(self) == *old(self),
            r matches Err(e) && e.deep_view() == ErrorV::Message("can't serialize () in VDF"@),
    {
        self.serialize_unit()
    }

    /// Rejected: an enum variant with a payload has no textual form in the
    /// format. Nothing is written.
    pub fn serialize_newtype_variant(&mut self, _name: &str, _variant: &str) -> (r: Result<
        (),
        Error,
    >)
        ensures
            *final(self) == *old(self),
            r matches Err(e) && e.deep_view() == ErrorV::Message(
                "can't serialize newtype variant in VDF"@,
            ),
    {
        Err(Error::Message(String::from_str("can't serialize newtype variant in VDF")))
    }

    /// Rejected: sequences have no textual form in the format. Nothing is
    /// written.
    pub fn serialize_seq(&mut self, _len: Option<usize>) -> (r: Result<(), Error>)
        ensures
            *final(self) == *old(self),
            r matches Err(e) && e.deep_view() == ErrorV::Message("can't serialize arrays in VDF"@),
    {
        Err(Error::Message(String::from_str("can't serialize arrays in VDF")))
    }

    /// Rejected: tuples have no textual form in the format. Nothing is
    /// written.
    pub fn serialize_tuple(&mut self, _len: usize) -> (r: Result<(), Error>)
        ensures
            *final(self) == *old(self),
            r matches Err(e) && e.deep_view() == ErrorV::Message("can't serialize tuples in VDF"@),
    {
        Err(Error::Message(String::from_str("can't serialize tuples in VDF")))
    }

    /// Rejected: tuple-like record types have no textual form in the
    /// format. Nothing is written.
    pub fn serialize_tuple_struct(&mut self, _name: &str, _len: usize) -> (r: Result<(), Error>)
        ensures
            *final(self) == *old(self),
            r matches Err(e) && e.deep_view() == ErrorV::Message("can't serialize tuples in VDF"@),
    {
        Err(Error::Message(String::from_str("can't serialize tuples in VDF")))
    }

    /// Rejected: tuple-like enum variants have no textual form in the
    /// format. Nothing is written.
    pub fn serialize_tuple_variant(&mut self, _name: &str, _variant: &str, _len: usize) -> (r:
        Result<(), Error>)
        ensures
            *final(self) == *old(self),
            r matches Err(e) && e.deep_view() == ErrorV::Message("can't serialize tuples in VDF"@),
    {
        Err(Error::Message(String::from_str("can't serialize tuples in VDF")))
    }

    /// Rejected: record-like enum variants have no textual form in the
    /// format. Nothing is written.
    pub fn serialize_struct_variant(&mut self, _name: &str, _variant: &str, _len: usize) -> (r:
        Result<(), Error>)
        ensures
            *final(self) == *old(self),
            r matches Err(e) && e.deep_view() == ErrorV::Message(
                "can't serialize struct variants in VDF"@,
            ),
    {
        Err(Error::Message(String::from_str("can't serialize struct variants in VDF")))
    }
}

} // verus!
