//! Tracked environment variables.
//!
//! A client that attaches sends the daemon a snapshot of a configurable set of
//! environment variables, so that tools running inside the session can learn
//! the environment (`DISPLAY`, `SSH_AUTH_SOCK`, ...) the interactive session
//! runs under.
//!
//! Wire format: newline-separated lines, one per tracked key. A set variable
//! is `KEY=VALUE`; a variable that was unset in the client's environment is
//! `-KEY`, so that the reader can emit `unset KEY` in shell mode.
use vstd::prelude::*;
use vstd::string::*;
use crate::text::{chars_of, find_char, first_index, is_ws, push_char, str_equal, trim, trim_bounds, trim_end, trim_start};

verus! {

// ---------------------------------------------------------------------------
// The model of the wire format
// ---------------------------------------------------------------------------

/// A decoded entry as plain values: the key, and `Some(value)` when the
/// variable was set in the client or `None` when it was unset.
pub type SpecEntry = (Seq<char>, Option<Seq<char>>);

/// `l` without one trailing carriage return, if it ends with one.
pub open spec fn strip_cr(l: Seq<char>) -> Seq<char> {
    if l.len() > 0 && l.last() == '\r' {
        l.drop_last()
    } else {
        l
    }
}

/// The lines of `s` as `str::lines` yields them: split at `\n`, each line
/// that ended with `\n` loses one `\r` before it, and a final line ending
/// adds no empty line.
pub open spec fn lines(s: Seq<char>) -> Seq<Seq<char>>
    decreases s.len(),
{
    if s.len() == 0 {
        seq![]
    } else {
        let n = first_index(s, '\n');
        if n < s.len() {
            seq![strip_cr(s.take(n as int))] + lines(s.skip(n + 1int))
        } else {
            seq![s]
        }
    }
}

/// The entry one line stands for, if any: `-KEY` is an unset key, `KEY=VALUE`
/// (split at the first `=`) a set one; empty lines and other lines stand for
/// nothing.
pub open spec fn parse_entry(l: Seq<char>) -> Option<SpecEntry> {
    if l.len() == 0 {
        None
    } else if l[0] == '-' {
        Some((l.drop_first(), None))
    } else {
        let e = first_index(l, '=');
        if e < l.len() {
            Some((l.take(e as int), Some(l.skip(e + 1int))))
        } else {
            None
        }
    }
}

/// The entries that a sequence of lines stands for, in order.
pub open spec fn entries_of_lines(ls: Seq<Seq<char>>) -> Seq<SpecEntry>
    decreases ls.len(),
{
    if ls.len() == 0 {
        seq![]
    } else {
        match parse_entry(ls[0]) {
            Some(e) => seq![e] + entries_of_lines(ls.drop_first()),
            None => entries_of_lines(ls.drop_first()),
        }
    }
}

/// The entries encoded in a payload.
pub open spec fn spec_entries(payload: Seq<char>) -> Seq<SpecEntry> {
    entries_of_lines(lines(payload))
}

/// The value of the first entry for `key`: `None` when no entry has that key
/// or when the first one records the key as unset.
pub open spec fn lookup(es: Seq<SpecEntry>, key: Seq<char>) -> Option<Seq<char>>
    decreases es.len(),
{
    if es.len() == 0 {
        None
    } else if es[0].0 == key {
        es[0].1
    } else {
        lookup(es.drop_first(), key)
    }
}

/// A `str` option as plain characters.
pub open spec fn opt_view(o: Option<&str>) -> Option<Seq<char>> {
    match o {
        Some(v) => Some(v@),
        None => None,
    }
}

// ---------------------------------------------------------------------------
// Decoding
// ---------------------------------------------------------------------------

/// A single tracked entry decoded from the wire payload.
#[derive(Debug, PartialEq, Eq)]
pub struct Entry<'a> {
    pub key: &'a str,
    /// `Some(value)` when set in the client, `None` when it was unset.
    pub value: Option<&'a str>,
}

impl<'a> View for Entry<'a> {
    type V = SpecEntry;

    open spec fn view(&self) -> SpecEntry {
        (self.key@, opt_view(self.value))
    }
}

/// The plain values of a sequence of entries.
pub open spec fn entries_view<'a>(es: Seq<Entry<'a>>) -> Seq<SpecEntry> {
    es.map_values(|e: Entry<'a>| e@)
}

/// The entry that `payload[lo..hi]`, one line, stands for.
fn parse_line<'a>(payload: &'a str, chars: &Vec<char>, lo: usize, hi: usize) -> (r: Option<Entry<'a>>)
    requires
        chars@ == payload@,
        lo <= hi <= chars.len(),
    ensures
        match r {
            Some(e) => parse_entry(payload@.subrange(lo as int, hi as int)) == Some(e@),
            None => parse_entry(payload@.subrange(lo as int, hi as int)) is None,
        },
{
    let ghost l = payload@.subrange(lo as int, hi as int);
    if lo == hi {
        None
    } else if chars[lo] == '-' {
        let key = payload.substring_char(lo + 1, hi);
        assert(key@ =~= l.drop_first());
        Some(Entry { key, value: None })
    } else {
        let e = find_char(chars, lo, hi, '=');
        if e < hi {
            let key = payload.substring_char(lo, e);
            let value = payload.substring_char(e + 1, hi);
            assert(key@ =~= l.take(e - lo));
            assert(value@ =~= l.skip(e - lo + 1));
            Some(Entry { key, value: Some(value) })
        } else {
            None
        }
    }
}

/// The entries encoded in `payload`, in order.
pub fn entries<'a>(payload: &'a str) -> (r: Vec<Entry<'a>>)
    ensures
        entries_view(r@) == spec_entries(payload@),
{
    let chars = chars_of(payload);
    let n = chars.len();
    let mut out: Vec<Entry<'a>> = Vec::new();
    let mut start: usize = 0;
    assert(payload@.skip(0) =~= payload@);
    while start < n
        invariant
            chars@ == payload@,
            n == chars.len(),
            start <= n,
            entries_view(out@) + entries_of_lines(lines(payload@.skip(start as int)))
                == spec_entries(payload@),
        decreases n - start,
    {
        let ghost rest = payload@.skip(start as int);
        let ghost before = entries_view(out@);
        assert(rest =~= chars@.subrange(start as int, n as int));
        let j = find_char(&chars, start, n, '\n');
        let mut end = j;
        if j < n && j > start && chars[j - 1] == '\r' {
            end = j - 1;
        }
        let parsed = parse_line(payload, &chars, start, end);
        proof {
            let k = (j - start) as int;
            if j < n {
                assert(strip_cr(rest.take(k)) =~= payload@.subrange(start as int, end as int));
                assert(rest.skip(k + 1) =~= payload@.skip(j + 1));
            } else {
                assert(rest =~= payload@.subrange(start as int, end as int));
                assert(payload@.skip(n as int) =~= Seq::<char>::empty());
            }
        }
        let next = if j < n { j + 1 } else { n };
        match parsed {
            Some(e) => {
                out.push(e);
                assert(entries_view(out@) =~= before + seq![e@]);
            },
            None => {},
        }
        proof {
            let ls = lines(rest);
            assert(ls.drop_first() =~= lines(payload@.skip(next as int)));
        }
        start = next;
    }
    assert(payload@.skip(n as int) =~= Seq::<char>::empty());
    assert(entries_view(out@) + entries_of_lines(lines(payload@.skip(n as int))) =~= entries_view(out@));
    out
}

/// Looks up a single key's value in `payload`. Returns `None` if the key is
/// absent or was unset in the client's environment; where the key occurs more
/// than once, its first entry counts.
pub fn value_of<'a>(payload: &'a str, key: &str) -> (r: Option<&'a str>)
    ensures
        opt_view(r) == lookup(spec_entries(payload@), key@),
{
    let es = entries(payload);
    let ghost all = entries_view(es@);
    let mut i: usize = 0;
    assert(all.skip(0) =~= all);
    while i < es.len()
        invariant
            all == entries_view(es@),
            all == spec_entries(payload@),
            i <= es.len(),
            lookup(all, key@) == lookup(all.skip(i as int), key@),
        decreases es.len() - i,
    {
        assert(all.skip(i as int)[0] == es@[i as int]@);
        if str_equal(es[i].key, key) {
            return es[i].value;
        }
        assert(all.skip(i as int).drop_first() =~= all.skip(i + 1));
        i = i + 1;
    }
    None
}

// ---------------------------------------------------------------------------
// Shell rendering
// ---------------------------------------------------------------------------

/// `v` with each single quote replaced by `'\''`: close the quoted word,
/// insert an escaped quote, reopen it.
pub open spec fn shell_escape(v: Seq<char>) -> Seq<char>
    decreases v.len(),
{
    if v.len() == 0 {
        seq![]
    } else {
        (if v[0] == '\'' {
            seq!['\'', '\\', '\'', '\'']
        } else {
            seq![v[0]]
        }) + shell_escape(v.drop_first())
    }
}

/// The POSIX statement for one entry: `export KEY='VALUE';` or `unset KEY;`,
/// each followed by a newline.
pub open spec fn shell_line(e: SpecEntry) -> Seq<char> {
    match e.1 {
        Some(v) => "export "@ + e.0 + "='"@ + shell_escape(v) + "';\n"@,
        None => "unset "@ + e.0 + ";\n"@,
    }
}

/// The statements for a sequence of entries, in order.
pub open spec fn shell_script(es: Seq<SpecEntry>) -> Seq<char>
    decreases es.len(),
{
    if es.len() == 0 {
        seq![]
    } else {
        shell_line(es[0]) + shell_script(es.drop_first())
    }
}

/// Appends `v` to `out`, escaped for a single-quoted shell word.
fn push_shell_escaped(out: &mut String, v: &str)
    ensures
        final(out)@ == old(out)@ + shell_escape(v@),
{
    let chars = chars_of(v);
    let ghost base = out@;
    let mut i: usize = 0;
    assert(v@.skip(0) =~= v@);
    while i < chars.len()
        invariant
            chars@ == v@,
            i <= chars.len(),
            out@ + shell_escape(v@.skip(i as int)) == base + shell_escape(v@),
        decreases chars.len() - i,
    {
        let ghost before = out@;
        let c = chars[i];
        if c == '\'' {
            push_char(out, '\'');
            push_char(out, '\\');
            push_char(out, '\'');
            push_char(out, '\'');
        } else {
            push_char(out, c);
        }
        proof {
            let rest = v@.skip(i as int);
            assert(rest[0] == c);
            assert(rest.drop_first() =~= v@.skip(i + 1));
            let piece = if c == '\'' {
                seq!['\'', '\\', '\'', '\'']
            } else {
                seq![c]
            };
            assert(out@ =~= before + piece);
            assert(out@ + shell_escape(v@.skip(i + 1)) =~= before + shell_escape(rest));
        }
        i = i + 1;
    }
    assert(v@.skip(chars.len() as int) =~= Seq::<char>::empty());
    assert(out@ =~= out@ + shell_escape(Seq::<char>::empty()));
}

/// Renders `payload` as POSIX `export`/`unset` statements for `eval`, one per
/// entry, in order.
pub fn to_shell(payload: &str) -> (r: String)
    ensures
        r@ == shell_script(spec_entries(payload@)),
{
    let es = entries(payload);
    let ghost all = entries_view(es@);
    let mut out = String::new();
    let mut i: usize = 0;
    assert(all.skip(0) =~= all);
    while i < es.len()
        invariant
            all == entries_view(es@),
            all == spec_entries(payload@),
            i <= es.len(),
            out@ + shell_script(all.skip(i as int)) == shell_script(all),
        decreases es.len() - i,
    {
        let ghost before = out@;
        let e = &es[i];
        match e.value {
            Some(value) => {
                out.append("export ");
                out.append(e.key);
                out.append("='");
                push_shell_escaped(&mut out, value);
                out.append("';\n");
            },
            None => {
                out.append("unset ");
                out.append(e.key);
                out.append(";\n");
            },
        }
        proof {
            let rest = all.skip(i as int);
            assert(rest[0] == e@);
            assert(rest.drop_first() =~= all.skip(i + 1));
            assert(out@ =~= before + shell_line(e@));
            assert(out@ + shell_script(all.skip(i + 1)) =~= before + shell_script(rest));
        }
        i = i + 1;
    }
    assert(all.skip(es.len() as int) =~= Seq::<SpecEntry>::empty());
    assert(out@ =~= out@ + shell_script(Seq::<SpecEntry>::empty()));
    out
}

// ---------------------------------------------------------------------------
// Encoding a snapshot
// ---------------------------------------------------------------------------

/// The payload line for one entry: `KEY=VALUE` or `-KEY`, with a newline.
pub open spec fn payload_line(e: SpecEntry) -> Seq<char> {
    match e.1 {
        Some(v) => e.0 + seq!['='] + v + seq!['\n'],
        None => seq!['-'] + e.0 + seq!['\n'],
    }
}

/// The payload for a sequence of entries: one line each, in order, with
/// entries of an empty key left out.
pub open spec fn spec_payload(es: Seq<SpecEntry>) -> Seq<char>
    decreases es.len(),
{
    if es.len() == 0 {
        seq![]
    } else if es[0].0.len() == 0 {
        spec_payload(es.drop_first())
    } else {
        payload_line(es[0]) + spec_payload(es.drop_first())
    }
}

/// Builds the wire payload from the values that the tracked keys had in the
/// client's environment: `KEY=VALUE` for each set key, `-KEY` for each unset
/// one, in the order given; an empty key is skipped.
pub fn snapshot_payload(vars: &[Entry]) -> (r: String)
    ensures
        r@ == spec_payload(vars@.map_values(|e: Entry| e@)),
{
    let ghost all = vars@.map_values(|e: Entry| e@);
    let mut out = String::new();
    let mut i: usize = 0;
    assert(all.skip(0) =~= all);
    while i < vars.len()
        invariant
            all == vars@.map_values(|e: Entry| e@),
            i <= vars.len(),
            out@ + spec_payload(all.skip(i as int)) == spec_payload(all),
        decreases vars.len() - i,
    {
        let ghost before = out@;
        let e = &vars[i];
        let ghost rest = all.skip(i as int);
        assert(rest[0] == e@);
        assert(rest.drop_first() =~= all.skip(i + 1));
        if !e.key.is_empty() {
            match e.value {
                Some(value) => {
                    out.append(e.key);
                    push_char(&mut out, '=');
                    out.append(value);
                    push_char(&mut out, '\n');
                },
                None => {
                    push_char(&mut out, '-');
                    out.append(e.key);
                    push_char(&mut out, '\n');
                },
            }
            assert(out@ =~= before + payload_line(e@));
        }
        assert(out@ + spec_payload(all.skip(i + 1)) =~= before + spec_payload(rest));
        i = i + 1;
    }
    assert(all.skip(vars.len() as int) =~= Seq::<SpecEntry>::empty());
    assert(out@ =~= out@ + spec_payload(Seq::<SpecEntry>::empty()));
    out
}

// ---------------------------------------------------------------------------
// What a payload gives back
// ---------------------------------------------------------------------------

/// The entries of `es` whose key is not empty, in order.
pub open spec fn with_keys(es: Seq<SpecEntry>) -> Seq<SpecEntry>
    decreases es.len(),
{
    if es.len() == 0 {
        seq![]
    } else if es[0].0.len() == 0 {
        with_keys(es.drop_first())
    } else {
        seq![es[0]] + with_keys(es.drop_first())
    }
}

/// Whether an entry survives the wire format: its key holds no newline; a set
/// entry's key holds no `=` and does not start with `-`, and its value holds
/// no newline and does not end with a carriage return; an unset entry's key
/// does not end with a carriage return. Entries of an empty key are dropped
/// on encoding and need nothing.
pub open spec fn survives_wire(e: SpecEntry) -> bool {
    e.0.len() == 0 || {
        &&& !e.0.contains('\n')
        &&& match e.1 {
            Some(v) => {
                &&& e.0[0] != '-'
                &&& !e.0.contains('=')
                &&& !v.contains('\n')
                &&& !(v.len() > 0 && v.last() == '\r')
            },
            None => e.0.last() != '\r',
        }
    }
}

/// The lines of a text that starts with a line `l` ended by a newline.
proof fn lemma_lines_cons(l: Seq<char>, rest: Seq<char>)
    requires
        !l.contains('\n'),
    ensures
        lines(l + seq!['\n'] + rest) == seq![strip_cr(l)] + lines(rest),
{
    let s = l + seq!['\n'] + rest;
    crate::text::lemma_first_index_is(s, '\n', l.len() as int);
    assert(s.take(l.len() as int) =~= l);
    assert(s.skip(l.len() + 1int) =~= rest);
}

/// The line for one entry that survives the wire format reads back as that
/// entry.
proof fn lemma_parse_payload_line(e: SpecEntry)
    requires
        e.0.len() > 0,
        survives_wire(e),
    ensures
        ({
            let full = payload_line(e);
            let l = full.drop_last();
            &&& full == l + seq!['\n']
            &&& !l.contains('\n')
            &&& strip_cr(l) == l
            &&& parse_entry(l) == Some(e)
        }),
{
    let full = payload_line(e);
    let l = full.drop_last();
    assert(full =~= l + seq!['\n']);
    match e.1 {
        Some(v) => {
            assert(l =~= e.0 + seq!['='] + v);
            assert(!l.contains('\n')) by {
                if l.contains('\n') {
                    let j = choose|j: int| 0 <= j < l.len() && l[j] == '\n';
                    if j < e.0.len() {
                        assert(e.0[j] == '\n');
                    } else if j > e.0.len() {
                        assert(v[j - e.0.len() - 1] == '\n');
                    }
                }
            }
            crate::text::lemma_first_index_is(l, '=', e.0.len() as int);
            assert(l.take(e.0.len() as int) =~= e.0);
            assert(l.skip(e.0.len() + 1int) =~= v);
        },
        None => {
            assert(l =~= seq!['-'] + e.0);
            assert(!l.contains('\n')) by {
                if l.contains('\n') {
                    let j = choose|j: int| 0 <= j < l.len() && l[j] == '\n';
                    assert(e.0[j - 1] == '\n');
                }
            }
            assert(l.drop_first() =~= e.0);
        },
    }
}

/// What a read gives back of a write: decoding the payload built from a
/// snapshot yields the snapshot's entries, in order, less those of an empty
/// key, provided every entry survives the wire format.
pub proof fn lemma_payload_roundtrip(es: Seq<SpecEntry>)
    requires
        forall|i: int| 0 <= i < es.len() ==> survives_wire(#[trigger] es[i]),
    ensures
        spec_entries(spec_payload(es)) == with_keys(es),
    decreases es.len(),
{
    if es.len() > 0 {
        let rest = es.drop_first();
        assert forall|i: int| 0 <= i < rest.len() implies survives_wire(#[trigger] rest[i]) by {
            assert(rest[i] == es[i + 1]);
        }
        lemma_payload_roundtrip(rest);
        assert(survives_wire(es[0]));
        if es[0].0.len() > 0 {
            lemma_parse_payload_line(es[0]);
            let l = payload_line(es[0]).drop_last();
            let tail = spec_payload(rest);
            assert(spec_payload(es) =~= l + seq!['\n'] + tail);
            lemma_lines_cons(l, tail);
            let ls = lines(spec_payload(es));
            assert(ls[0] == l);
            assert(ls.drop_first() =~= lines(tail));
        }
    }
}

/// Looking a key up in the payload built from a snapshot finds the first
/// entry of that key in the snapshot, provided every entry survives the wire
/// format. (An empty key never reads back, so for it the law holds where the
/// snapshot has no value for it.)
pub proof fn lemma_lookup_payload(es: Seq<SpecEntry>, key: Seq<char>)
    requires
        forall|i: int| 0 <= i < es.len() ==> survives_wire(#[trigger] es[i]),
        key.len() > 0 || lookup(es, key) is None,
    ensures
        lookup(spec_entries(spec_payload(es)), key) == lookup(es, key),
{
    lemma_payload_roundtrip(es);
    lemma_lookup_with_keys(es, key);
}

/// Dropping entries of an empty key does not change the lookup of a key that
/// is not empty, and leaves nothing for the empty key.
proof fn lemma_lookup_with_keys(es: Seq<SpecEntry>, key: Seq<char>)
    ensures
        key.len() > 0 ==> lookup(with_keys(es), key) == lookup(es, key),
        key.len() == 0 ==> lookup(with_keys(es), key) is None,
    decreases es.len(),
{
    if es.len() > 0 {
        lemma_lookup_with_keys(es.drop_first(), key);
        if es[0].0.len() > 0 {
            let w = with_keys(es);
            assert(w[0] == es[0]);
            assert(w.drop_first() =~= with_keys(es.drop_first()));
        }
    }
}

// ---------------------------------------------------------------------------
// What the shell makes of a rendered value
// ---------------------------------------------------------------------------

/// Whether an unquoted character would not stand for itself in a POSIX shell
/// word: a blank or newline (which ends the word), an operator or expansion
/// character, a double quote, or a glob character.
pub open spec fn sh_special(c: char) -> bool {
    ||| c == ' ' || c == '\t' || c == '\n'
    ||| c == ';' || c == '&' || c == '|' || c == '<' || c == '>' || c == '(' || c == ')'
    ||| c == '$' || c == '`' || c == '"'
    ||| c == '*' || c == '?' || c == '['
}

/// `c` in front of a word read so far, if the text was one word.
pub open spec fn sh_prepend(c: char, w: Option<Seq<char>>) -> Option<Seq<char>> {
    match w {
        Some(w) => Some(seq![c] + w),
        None => None,
    }
}

/// What a POSIX shell reads from `s`, starting outside quotes, when `s` is a
/// single word of plain characters, backslash escapes and single-quoted
/// parts: `Some` of the characters it stands for. `None` when `s` is not one
/// such word: an unquoted blank ends the word there, an unquoted special
/// character does not stand for itself, and a quote left open is an error.
pub open spec fn sh_word(s: Seq<char>) -> Option<Seq<char>>
    decreases s.len(),
{
    if s.len() == 0 {
        Some(seq![])
    } else if s[0] == '\'' {
        sh_word_quoted(s.drop_first())
    } else if s[0] == '\\' && s.len() >= 2 {
        if s[1] == '\n' {
            sh_word(s.skip(2))
        } else {
            sh_prepend(s[1], sh_word(s.skip(2)))
        }
    } else if sh_special(s[0]) {
        None
    } else {
        sh_prepend(s[0], sh_word(s.drop_first()))
    }
}

/// The same, starting inside single quotes, where every character stands for
/// itself until the closing quote; a text that ends inside the quotes is not
/// a word.
pub open spec fn sh_word_quoted(s: Seq<char>) -> Option<Seq<char>>
    decreases s.len(),
{
    if s.len() == 0 {
        None
    } else if s[0] == '\'' {
        sh_word(s.drop_first())
    } else {
        sh_prepend(s[0], sh_word_quoted(s.drop_first()))
    }
}

/// A value as `to_shell` quotes it: escaped, between single quotes.
pub open spec fn sh_quote(v: Seq<char>) -> Seq<char> {
    seq!['\''] + shell_escape(v) + seq!['\'']
}

proof fn lemma_sh_word_quoted_escape(v: Seq<char>)
    ensures
        sh_word_quoted(shell_escape(v) + seq!['\'']) == Some(v),
    decreases v.len(),
{
    let q = seq!['\''];
    if v.len() == 0 {
        assert(shell_escape(v) + q =~= q);
        assert(q.drop_first() =~= Seq::<char>::empty());
        assert(sh_word_quoted(q) == sh_word(q.drop_first()));
        assert(v =~= Seq::<char>::empty());
    } else {
        let rest = v.drop_first();
        lemma_sh_word_quoted_escape(rest);
        let x = shell_escape(rest) + q;
        let s = shell_escape(v) + q;
        if v[0] == '\'' {
            assert(s =~= seq!['\'', '\\', '\'', '\''] + x);
            let s1 = s.drop_first();
            assert(s1 =~= seq!['\\', '\'', '\''] + x);
            assert(s1.skip(2) =~= seq!['\''] + x);
            assert(s1.skip(2).drop_first() =~= x);
            assert(sh_word(s1.skip(2)) == sh_word_quoted(x));
            assert(sh_word(s1) == sh_prepend('\'', sh_word(s1.skip(2))));
            assert(sh_word_quoted(s) == sh_word(s1));
            assert(v =~= seq![v[0]] + rest);
        } else {
            assert(s =~= seq![v[0]] + x);
            assert(s.drop_first() =~= x);
            assert(sh_word_quoted(s) == sh_prepend(v[0], sh_word_quoted(x)));
            assert(v =~= seq![v[0]] + rest);
        }
    }
}

/// Shell quoting is faithful: each `export` line that `to_shell` writes
/// assigns the value between single quotes as `sh_quote` forms it, and a
/// POSIX shell reads that text as one word that is exactly the value.
pub proof fn lemma_shell_quoting(key: Seq<char>, v: Seq<char>)
    ensures
        shell_line((key, Some(v))) == "export "@ + key + seq!['='] + sh_quote(v) + seq![';', '\n'],
        sh_word(sh_quote(v)) == Some(v),
{
    reveal_strlit("='");
    reveal_strlit("';\n");
    assert(shell_line((key, Some(v))) =~= "export "@ + key + seq!['='] + sh_quote(v) + seq![';', '\n']);
    lemma_sh_word_quoted_escape(v);
    let w = sh_quote(v);
    assert(w.drop_first() =~= shell_escape(v) + seq!['\'']);
}

/// Escaping leaves a value without a single quote unchanged: only a quote is
/// rewritten, every other character stays inside the quotes as it is.
pub proof fn lemma_escape_without_quote(v: Seq<char>)
    requires
        forall|i: int| 0 <= i < v.len() ==> v[i] != '\'',
    ensures
        shell_escape(v) == v,
    decreases v.len(),
{
    if v.len() > 0 {
        lemma_escape_without_quote(v.drop_first());
        assert(v =~= seq![v[0]] + v.drop_first());
    }
}

// ---------------------------------------------------------------------------
// Which keys are tracked
// ---------------------------------------------------------------------------

/// The keys tracked when no list is configured.
pub open spec fn default_tracked() -> Seq<Seq<char>> {
    seq![
        "DISPLAY"@,
        "SSH_AUTH_SOCK"@,
        "SSH_AGENT_PID"@,
        "SSH_CONNECTION"@,
        "WINDOWID"@,
        "XAUTHORITY"@,
        "KITTY_LISTEN_ON"@,
        "KITTY_PID"@,
        "KITTY_WINDOW_ID"@,
    ]
}

/// The pieces of `s` between commas, as `str::split(',')` yields them (an
/// empty text is one empty piece).
pub open spec fn comma_pieces(s: Seq<char>) -> Seq<Seq<char>>
    decreases s.len(),
{
    let i = first_index(s, ',');
    if i < s.len() {
        seq![s.take(i as int)] + comma_pieces(s.skip(i + 1int))
    } else {
        seq![s]
    }
}

/// The pieces trimmed of whitespace, with the empty ones left out.
pub open spec fn trimmed_nonempty(ps: Seq<Seq<char>>) -> Seq<Seq<char>>
    decreases ps.len(),
{
    if ps.len() == 0 {
        seq![]
    } else if trim(ps[0]).len() > 0 {
        seq![trim(ps[0])] + trimmed_nonempty(ps.drop_first())
    } else {
        trimmed_nonempty(ps.drop_first())
    }
}

/// The keys a configured list names: comma-separated, each trimmed of
/// whitespace, empty ones skipped.
pub open spec fn spec_key_list(setting: Seq<char>) -> Seq<Seq<char>> {
    trimmed_nonempty(comma_pieces(setting))
}

/// The keys to track for a configured setting: `None` when no list is
/// configured gives the built-in defaults.
pub open spec fn spec_tracked_keys(setting: Option<Seq<char>>) -> Seq<Seq<char>> {
    match setting {
        Some(s) => spec_key_list(s),
        None => default_tracked(),
    }
}

/// The plain values of a vector of strings.
pub open spec fn strings_view(v: Seq<String>) -> Seq<Seq<char>> {
    v.map_values(|s: String| s@)
}

/// The built-in set of environment variables to track.
pub fn default_tracked_keys() -> (r: Vec<String>)
    ensures
        strings_view(r@) == default_tracked(),
{
    let mut r: Vec<String> = Vec::new();
    r.push("DISPLAY".to_owned());
    r.push("SSH_AUTH_SOCK".to_owned());
    r.push("SSH_AGENT_PID".to_owned());
    r.push("SSH_CONNECTION".to_owned());
    r.push("WINDOWID".to_owned());
    r.push("XAUTHORITY".to_owned());
    r.push("KITTY_LISTEN_ON".to_owned());
    r.push("KITTY_PID".to_owned());
    r.push("KITTY_WINDOW_ID".to_owned());
    assert(strings_view(r@) =~= default_tracked());
    r
}

/// The keys named by a comma-separated list, each trimmed, empty ones
/// skipped.
fn key_list(setting: &str) -> (r: Vec<String>)
    ensures
        strings_view(r@) == spec_key_list(setting@),
{
    let chars = chars_of(setting);
    let n = chars.len();
    let mut out: Vec<String> = Vec::new();
    let mut start: usize = 0;
    let mut done = false;
    assert(setting@.skip(0) =~= setting@);
    while !done
        invariant
            chars@ == setting@,
            n == chars.len(),
            start <= n,
            !done ==> strings_view(out@) + trimmed_nonempty(comma_pieces(setting@.skip(start as int)))
                == spec_key_list(setting@),
            done ==> strings_view(out@) == spec_key_list(setting@),
        decreases n - start + (if done { 0int } else { 1int }),
    {
        let ghost rest = setting@.skip(start as int);
        let ghost before = strings_view(out@);
        assert(rest =~= chars@.subrange(start as int, n as int));
        let j = find_char(&chars, start, n, ',');
        let (a, b) = trim_bounds(&chars, start, j);
        let ghost piece = rest.take(j - start);
        assert(piece =~= chars@.subrange(start as int, j as int));
        let ghost ps = comma_pieces(rest);
        if j < n {
            assert(rest.skip(j - start + 1) =~= setting@.skip(j + 1));
            assert(ps[0] == piece);
            assert(ps.drop_first() =~= comma_pieces(setting@.skip(j + 1)));
        } else {
            assert(rest.take(j - start) =~= rest);
            assert(ps =~= seq![piece]);
        }
        if a < b {
            let key = setting.substring_char(a, b).to_owned();
            out.push(key);
            assert(strings_view(out@) =~= before + seq![trim(piece)]);
        }
        if j < n {
            start = j + 1;
            assert(strings_view(out@) + trimmed_nonempty(comma_pieces(setting@.skip(start as int)))
                =~= before + trimmed_nonempty(ps));
        } else {
            done = true;
            assert(ps.len() == 1 && ps[0] == piece);
            assert(ps.drop_first() =~= Seq::<Seq<char>>::empty());
            assert(trimmed_nonempty(ps.drop_first()) =~= Seq::<Seq<char>>::empty());
            assert(strings_view(out@) =~= before + trimmed_nonempty(ps));
        }
    }
    out
}

/// The list of keys to track, given the value of the configuration variable
/// `RIFT_TRACK_ENV` (`None` when it is not set): its comma-separated keys,
/// each trimmed, empty ones skipped; otherwise the built-in defaults.
pub fn tracked_keys_from(setting: Option<&str>) -> (r: Vec<String>)
    ensures
        strings_view(r@) == spec_tracked_keys(opt_view(setting)),
{
    match setting {
        Some(value) => key_list(value),
        None => default_tracked_keys(),
    }
}

/// Every key a configured list names is non-empty and has no whitespace at
/// either end.
pub proof fn lemma_key_list_clean(setting: Seq<char>)
    ensures
        forall|i: int| 0 <= i < spec_key_list(setting).len() ==> {
            &&& (#[trigger] spec_key_list(setting)[i]).len() > 0
            &&& trim(spec_key_list(setting)[i]) == spec_key_list(setting)[i]
        },
{
    lemma_trimmed_nonempty_clean(comma_pieces(setting));
}

proof fn lemma_trimmed_nonempty_clean(ps: Seq<Seq<char>>)
    ensures
        forall|i: int| 0 <= i < trimmed_nonempty(ps).len() ==> {
            &&& (#[trigger] trimmed_nonempty(ps)[i]).len() > 0
            &&& trim(trimmed_nonempty(ps)[i]) == trimmed_nonempty(ps)[i]
        },
    decreases ps.len(),
{
    if ps.len() > 0 {
        lemma_trimmed_nonempty_clean(ps.drop_first());
        crate::text::lemma_trim_idempotent(ps[0]);
        let r = trimmed_nonempty(ps);
        let rest = trimmed_nonempty(ps.drop_first());
        if trim(ps[0]).len() > 0 {
            assert forall|i: int| 0 <= i < r.len() implies {
                &&& (#[trigger] r[i]).len() > 0
                &&& trim(r[i]) == r[i]
            } by {
                if i > 0 {
                    assert(r[i] == rest[i - 1]);
                }
            }
        }
    }
}

/// Keys joined by commas.
pub open spec fn join_commas(ks: Seq<Seq<char>>) -> Seq<char>
    decreases ks.len(),
{
    if ks.len() == 0 {
        seq![]
    } else if ks.len() == 1 {
        ks[0]
    } else {
        ks[0] + seq![','] + join_commas(ks.drop_first())
    }
}

/// No character of a configured list is lost: a setting made of keys joined
/// by commas, each key non-empty, without a comma, and with no whitespace at
/// either end, names exactly those keys, in order.
pub proof fn lemma_key_list_join(ks: Seq<Seq<char>>)
    requires
        forall|i: int| 0 <= i < ks.len() ==> (#[trigger] ks[i]).len() > 0,
        forall|i: int, j: int| 0 <= i < ks.len() && 0 <= j < ks[i].len() ==> #[trigger] ks[i][j] != ',',
        forall|i: int| 0 <= i < ks.len() ==> !is_ws((#[trigger] ks[i])[0]),
        forall|i: int| 0 <= i < ks.len() ==> !is_ws((#[trigger] ks[i]).last()),
    ensures
        ks.len() > 0 ==> spec_key_list(join_commas(ks)) == ks,
    decreases ks.len(),
{
    if ks.len() > 0 {
        let k = ks[0];
        let rest = ks.drop_first();
        assert(k.len() > 0 && !is_ws(k[0]) && !is_ws(k.last()));
        assert(trim_start(k) == k);
        assert(trim_end(k) == k);
        assert(trim(k) == k);
        assert forall|j: int| 0 <= j < k.len() implies k[j] != ',' by {
            assert(ks[0][j] != ',');
        }
        if ks.len() == 1 {
            crate::text::lemma_first_index_is(k, ',', k.len() as int);
            assert(comma_pieces(k) =~= seq![k]);
            let one = seq![k];
            assert(one[0] == k);
            assert(one.drop_first() =~= Seq::<Seq<char>>::empty());
            assert(trimmed_nonempty(one.drop_first()) =~= Seq::<Seq<char>>::empty());
            assert(trimmed_nonempty(one) =~= seq![k]);
            assert(ks =~= seq![k]);
        } else {
            assert forall|i: int, j: int| 0 <= i < rest.len() && 0 <= j < rest[i].len() implies #[trigger] rest[i][j] != ',' by {
                assert(rest[i] == ks[i + 1]);
            }
            assert forall|i: int| 0 <= i < rest.len() implies (#[trigger] rest[i]).len() > 0
                && !is_ws(rest[i][0]) && !is_ws(rest[i].last()) by {
                assert(rest[i] == ks[i + 1]);
            }
            lemma_key_list_join(rest);
            let tail = join_commas(rest);
            let full = k + seq![','] + tail;
            assert(join_commas(ks) == full);
            assert forall|j: int| 0 <= j < k.len() implies full[j] != ',' by {
                assert(full[j] == k[j]);
            }
            crate::text::lemma_first_index_is(full, ',', k.len() as int);
            assert(full.take(k.len() as int) =~= k);
            assert(full.skip(k.len() + 1int) =~= tail);
            let ps = comma_pieces(full);
            assert(ps =~= seq![k] + comma_pieces(tail));
            assert(ps[0] == k);
            assert(ps.drop_first() =~= comma_pieces(tail));
            assert(trimmed_nonempty(ps) =~= seq![k] + trimmed_nonempty(comma_pieces(tail)));
            assert(ks =~= seq![k] + rest);
        }
    }
}

/// A lookup matches keys exactly: it gives the value of the first entry
/// whose key equals the requested key, so a value it finds belongs to an
/// entry of exactly that key; and it finds nothing when no entry has that
/// key.
pub proof fn lemma_lookup_exact(es: Seq<SpecEntry>, key: Seq<char>)
    ensures
        forall|i: int|
            0 <= i < es.len() && (#[trigger] es[i]).0 == key && (forall|j: int|
                0 <= j < i ==> es[j].0 != key) ==> lookup(es, key) == es[i].1,
        (forall|i: int| 0 <= i < es.len() ==> (#[trigger] es[i]).0 != key) ==> lookup(es, key) is None,
        lookup(es, key) is Some ==> exists|i: int|
            0 <= i < es.len() && #[trigger] es[i] == (key, lookup(es, key)),
    decreases es.len(),
{
    if es.len() > 0 {
        let rest = es.drop_first();
        lemma_lookup_exact(rest, key);
        assert forall|i: int|
            0 <= i < es.len() && (#[trigger] es[i]).0 == key && (forall|j: int|
                0 <= j < i ==> es[j].0 != key) implies lookup(es, key) == es[i].1 by {
            if i > 0 {
                assert(es[0].0 != key);
                assert(rest[i - 1] == es[i]);
                assert forall|j: int| 0 <= j < i - 1 implies rest[j].0 != key by {
                    assert(rest[j] == es[j + 1]);
                }
            }
        }
        if (forall|i: int| 0 <= i < es.len() ==> (#[trigger] es[i]).0 != key) {
            assert(es[0].0 != key);
            assert forall|i: int| 0 <= i < rest.len() implies (#[trigger] rest[i]).0 != key by {
                assert(rest[i] == es[i + 1]);
            }
        }
        if lookup(es, key) is Some {
            if es[0].0 == key {
                assert(es[0] == (key, lookup(es, key)));
            } else {
                let i = choose|i: int| 0 <= i < rest.len() && #[trigger] rest[i] == (key, lookup(rest, key));
                assert(es[i + 1] == rest[i]);
            }
        }
    }
}

} // verus!
