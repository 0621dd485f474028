//! Character-level model of the text format: whitespace, escaping, and the
//! conditions under which an item's text survives a trip through the
//! tokenizer unchanged.

use vstd::prelude::*;

verus! {

/// The format's whitespace characters: space, tab, newline, carriage return.
pub open spec fn ws_char(c: char) -> bool {
    c == ' ' || c == '\t' || c == '\n' || c == '\r'
}

/// Every character of `s` is whitespace.
pub open spec fn ws_only(s: Seq<char>) -> bool {
    forall|i: int| 0 <= i < s.len() ==> ws_char(#[trigger] s[i])
}

/// `s` with its maximal whitespace prefix removed.
pub open spec fn skip_ws(s: Seq<char>) -> Seq<char>
    decreases s.len(),
{
    if s.len() > 0 && ws_char(s[0]) {
        skip_ws(s.drop_first())
    } else {
        s
    }
}

/// The escaping applied to an item's text before quoting it: backslash,
/// newline, tab and double quote become two-character escapes; every other
/// character stands for itself.
pub open spec fn escape_char(c: char) -> Seq<char> {
    if c == '\\' {
        seq!['\\', '\\']
    } else if c == '\n' {
        seq!['\\', 'n']
    } else if c == '\t' {
        seq!['\\', 't']
    } else if c == '"' {
        seq!['\\', '"']
    } else {
        seq![c]
    }
}

pub open spec fn escape_seq(s: Seq<char>) -> Seq<char>
    decreases s.len(),
{
    if s.len() == 0 {
        Seq::empty()
    } else {
        escape_char(s[0]) + escape_seq(s.drop_first())
    }
}

/// An item's text wrapped in double quotes, with its content escaped.
pub open spec fn quote_item(s: Seq<char>) -> Seq<char> {
    seq!['"'] + escape_seq(s) + seq!['"']
}

/// Characters that the tokenizer accepts after a backslash inside a quoted
/// item, together with the raw letter `n`: a quoted item whose escaped form
/// ends inside such a run is cut short by the tokenizer.
pub open spec fn esc_run_char(c: char) -> bool {
    c == '\\' || c == '\n' || c == '"'
}

/// The item texts that round-trip through the external tokenizer: non-empty,
/// not a statement marker, no tab (the tokenizer rejects the tab escape), and
/// every escaped character is eventually followed by one that cannot extend
/// an escape run to the closing quote.
pub open spec fn item_ok(s: Seq<char>) -> bool {
    &&& s.len() > 0
    &&& s[0] != '#'
    &&& forall|i: int| 0 <= i < s.len() ==> s[i] != '\t'
    &&& forall|i: int|
        0 <= i < s.len() && esc_run_char(#[trigger] s[i]) ==> exists|j: int|
            i < j < s.len() && !esc_run_char(#[trigger] s[j]) && s[j] != 'n'
}

/// One tab per indentation level.
pub open spec fn tabs(n: nat) -> Seq<char>
    decreases n,
{
    if n == 0 {
        Seq::empty()
    } else {
        tabs((n - 1) as nat) + seq!['\t']
    }
}

/// `s` with a single trailing tab removed, if one is there.
pub open spec fn trim_tab(s: Seq<char>) -> Seq<char> {
    if s.len() > 0 && s[s.len() - 1] == '\t' {
        s.drop_last()
    } else {
        s
    }
}

/// Splitting a text into a whitespace prefix, a quoted item and a tail; the
/// hypothesis under which the tokenizer is relied on to produce that item.
pub open spec fn splits_item(txt: Seq<char>, pre: Seq<char>, s: Seq<char>, tail: Seq<char>) -> bool {
    ws_only(pre) && item_ok(s) && txt == pre + quote_item(s) + tail
}

/// Splitting a text into a whitespace prefix, a group-open brace and a tail.
pub open spec fn splits_open(txt: Seq<char>, pre: Seq<char>, tail: Seq<char>) -> bool {
    ws_only(pre) && txt == pre + seq!['{'] + tail
}

/// Splitting a text into a whitespace prefix, a group-close brace and a tail.
pub open spec fn splits_close(txt: Seq<char>, pre: Seq<char>, tail: Seq<char>) -> bool {
    ws_only(pre) && txt == pre + seq!['}'] + tail
}

/// Skipping whitespace from a concatenation whose first part is all
/// whitespace skips into the second part.
pub proof fn lemma_skip_ws_concat(pre: Seq<char>, rest: Seq<char>)
    requires
        ws_only(pre),
    ensures
        skip_ws(pre + rest) == skip_ws(rest),
    decreases pre.len(),
{
    if pre.len() == 0 {
        assert(pre + rest =~= rest);
    } else {
        assert((pre + rest).drop_first() =~= pre.drop_first() + rest);
        assert(ws_only(pre.drop_first()));
        lemma_skip_ws_concat(pre.drop_first(), rest);
    }
}

/// A text that starts with a non-whitespace character is left alone.
pub proof fn lemma_skip_ws_noop(s: Seq<char>)
    requires
        s.len() == 0 || !ws_char(s[0]),
    ensures
        skip_ws(s) == s,
{
}

/// Skipping whitespace from an all-whitespace text leaves nothing.
pub proof fn lemma_skip_ws_all(s: Seq<char>)
    requires
        ws_only(s),
    ensures
        skip_ws(s) == Seq::<char>::empty(),
    decreases s.len(),
{
    if s.len() > 0 {
        assert(ws_only(s.drop_first()));
        lemma_skip_ws_all(s.drop_first());
    } else {
        assert(s =~= Seq::<char>::empty());
    }
}

} // verus!
