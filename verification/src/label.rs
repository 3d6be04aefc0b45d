//! Session labels: `key=value` pairs that name what a session is for.
//!
//! A label that `parse_pair` accepts has a key and a value of ASCII letters,
//! digits, `-`, `_` and `.`; its key is not empty and is none of the
//! read-only built-in fields (`name`, `start_dir`, `cmd`). A set of labels is
//! encoded as its pairs in key order, joined by single spaces, and decoded
//! from whitespace-separated `key=value` words.
use vstd::prelude::*;
use vstd::string::*;
use crate::text::{chars_of, find_char, first_index, is_whitespace, is_ws, push_char, str_equal};

verus! {

// ---------------------------------------------------------------------------
// Validation
// ---------------------------------------------------------------------------

/// Whether a character may appear in a label: an ASCII letter or digit, `-`,
/// `_` or `.`. (A character outside ASCII is encoded in bytes that are all
/// outside ASCII, so checking the bytes of a text and checking its
/// characters come to the same.)
pub open spec fn is_label_char(c: char) -> bool {
    ||| 'a' <= c && c <= 'z'
    ||| 'A' <= c && c <= 'Z'
    ||| '0' <= c && c <= '9'
    ||| c == '-'
    ||| c == '_'
    ||| c == '.'
}

/// Whether every character of `s` may appear in a label.
pub open spec fn all_label_chars(s: Seq<char>) -> bool {
    forall|i: int| 0 <= i < s.len() ==> is_label_char(#[trigger] s[i])
}

/// Whether `key` is one of the read-only built-in fields.
pub open spec fn is_reserved(key: Seq<char>) -> bool {
    key == "name"@ || key == "start_dir"@ || key == "cmd"@
}

/// The error for a pair without `=`.
pub open spec fn syntax_error(pair: Seq<char>) -> Seq<char> {
    "label must use key=value syntax: "@ + pair
}

/// The error for an empty key.
pub open spec fn empty_key_error() -> Seq<char> {
    "label key cannot be empty"@
}

/// The error for a key that names a built-in field.
pub open spec fn reserved_error(key: Seq<char>) -> Seq<char> {
    "\""@ + key + "\" is a read-only built-in field"@
}

/// The error for a key with a character that labels may not hold.
pub open spec fn invalid_key_error(key: Seq<char>) -> Seq<char> {
    "label key may only contain letters, numbers, '-', '_', and '.': "@ + key
}

/// The error for a value with a character that labels may not hold.
pub open spec fn invalid_value_error(value: Seq<char>) -> Seq<char> {
    "label value may only contain letters, numbers, '-', '_', and '.': "@ + value
}

/// The outcome of validating a key and a value: the first rule broken, in
/// the order empty key, reserved key, key characters, value characters.
pub open spec fn spec_validate(key: Seq<char>, value: Seq<char>) -> Result<(), Seq<char>> {
    if key.len() == 0 {
        Err(empty_key_error())
    } else if is_reserved(key) {
        Err(reserved_error(key))
    } else if !all_label_chars(key) {
        Err(invalid_key_error(key))
    } else if !all_label_chars(value) {
        Err(invalid_value_error(value))
    } else {
        Ok(())
    }
}

/// The outcome of parsing `key=value` (split at the first `=`).
pub open spec fn spec_parse_pair(pair: Seq<char>) -> Result<(Seq<char>, Seq<char>), Seq<char>> {
    let e = first_index(pair, '=');
    if e >= pair.len() {
        Err(syntax_error(pair))
    } else {
        let key = pair.take(e as int);
        let value = pair.skip(e + 1int);
        match spec_validate(key, value) {
            Ok(()) => Ok((key, value)),
            Err(m) => Err(m),
        }
    }
}

fn valid_character(c: char) -> (r: bool)
    ensures
        r == is_label_char(c),
{
    ('a' <= c && c <= 'z') || ('A' <= c && c <= 'Z') || ('0' <= c && c <= '9') || c == '-' || c
        == '_' || c == '.'
}

/// Whether every character of `s` may appear in a label.
fn all_valid(s: &str) -> (r: bool)
    ensures
        r == all_label_chars(s@),
{
    let chars = chars_of(s);
    let mut i: usize = 0;
    while i < chars.len()
        invariant
            chars@ == s@,
            i <= chars.len(),
            forall|j: int| 0 <= j < i ==> is_label_char(#[trigger] chars@[j]),
        decreases chars.len() - i,
    {
        let c = chars[i];
        let ok = valid_character(c);
        if !ok {
            assert(!is_label_char(chars@[i as int]));
            return false;
        }
        i = i + 1;
    }
    true
}

/// The message for `head` followed by `tail`.
fn message(head: &str, tail: &str) -> (r: String)
    ensures
        r@ == head@ + tail@,
{
    let mut m = head.to_owned();
    m.append(tail);
    m
}

fn validate(key: &str, value: &str) -> (r: Result<(), String>)
    ensures
        match r {
            Ok(()) => spec_validate(key@, value@) == Ok::<(), Seq<char>>(()),
            Err(m) => spec_validate(key@, value@) == Err::<(), Seq<char>>(m@),
        },
{
    if key.is_empty() {
        return Err("label key cannot be empty".to_owned());
    }
    if str_equal(key, "name") || str_equal(key, "start_dir") || str_equal(key, "cmd") {
        let mut m = message("\"", key);
        m.append("\" is a read-only built-in field");
        return Err(m);
    }
    if !all_valid(key) {
        return Err(message("label key may only contain letters, numbers, '-', '_', and '.': ", key));
    }
    if !all_valid(value) {
        return Err(
            message("label value may only contain letters, numbers, '-', '_', and '.': ", value),
        );
    }
    Ok(())
}

/// Parses `key=value`, split at the first `=`, and validates both parts.
pub fn parse_pair(pair: &str) -> (r: Result<(&str, &str), String>)
    ensures
        match r {
            Ok((key, value)) => spec_parse_pair(pair@) == Ok::<_, Seq<char>>((key@, value@)),
            Err(m) => spec_parse_pair(pair@) == Err::<(Seq<char>, Seq<char>), _>(m@),
        },
{
    let chars = chars_of(pair);
    let e = find_char(&chars, 0, chars.len(), '=');
    assert(chars@.subrange(0, chars.len() as int) =~= pair@);
    if e == chars.len() {
        return Err(message("label must use key=value syntax: ", pair));
    }
    let key = pair.substring_char(0, e);
    let value = pair.substring_char(e + 1, chars.len());
    assert(key@ =~= pair@.take(e as int));
    assert(value@ =~= pair@.skip(e + 1));
    match validate(key, value) {
        Ok(()) => Ok((key, value)),
        Err(m) => Err(m),
    }
}

/// Validates a label key on its own, as a key with an empty value.
pub fn validate_key(key: &str) -> (r: Result<(), String>)
    ensures
        match r {
            Ok(()) => spec_validate(key@, Seq::empty()) == Ok::<(), Seq<char>>(()),
            Err(m) => spec_validate(key@, Seq::empty()) == Err::<(), Seq<char>>(m@),
        },
{
    proof {
        reveal_strlit("");
    }
    validate(key, "")
}

// ---------------------------------------------------------------------------
// Sets of labels
// ---------------------------------------------------------------------------

/// A label as plain values: key and value.
pub type SpecLabel = (Seq<char>, Seq<char>);

/// The order of `String` keys: lexicographic by character. (`String` orders
/// by UTF-8 bytes, and UTF-8 keeps the order of code points.)
pub open spec fn key_lt(a: Seq<char>, b: Seq<char>) -> bool
    decreases a.len(),
{
    if a.len() == 0 {
        b.len() > 0
    } else if b.len() == 0 {
        false
    } else if a[0] < b[0] {
        true
    } else if a[0] == b[0] {
        key_lt(a.drop_first(), b.drop_first())
    } else {
        false
    }
}

/// Whether the keys of `s` are strictly increasing, hence distinct.
pub open spec fn sorted_keys(s: Seq<SpecLabel>) -> bool {
    forall|i: int, j: int| 0 <= i < j < s.len() ==> key_lt(#[trigger] s[i].0, #[trigger] s[j].0)
}

/// `key_lt` is irreflexive and asymmetric, and any two distinct keys are
/// ordered one way or the other.
pub proof fn lemma_key_lt_total(a: Seq<char>, b: Seq<char>)
    ensures
        !key_lt(a, a),
        key_lt(a, b) ==> !key_lt(b, a),
        a != b ==> key_lt(a, b) || key_lt(b, a),
    decreases a.len(),
{
    if a.len() > 0 {
        lemma_key_lt_total(a.drop_first(), a.drop_first());
        if b.len() > 0 {
            lemma_key_lt_total(a.drop_first(), b.drop_first());
            if a != b && a[0] == b[0] {
                assert(a.drop_first() != b.drop_first()) by {
                    if a.drop_first() == b.drop_first() {
                        assert(a =~= seq![a[0]] + a.drop_first());
                        assert(b =~= seq![b[0]] + b.drop_first());
                    }
                }
            }
        }
    } else if b.len() == 0 {
        assert(a =~= b);
    }
}

/// `key_lt` is transitive.
pub proof fn lemma_key_lt_trans(a: Seq<char>, b: Seq<char>, c: Seq<char>)
    requires
        key_lt(a, b),
        key_lt(b, c),
    ensures
        key_lt(a, c),
    decreases a.len(),
{
    if a.len() > 0 && a[0] == b[0] && b[0] == c[0] {
        lemma_key_lt_trans(a.drop_first(), b.drop_first(), c.drop_first());
    }
}

/// `s` with `key` set to `value`: the label of that key replaced in place,
/// or a new one inserted before the first greater key.
pub open spec fn insert_sorted(s: Seq<SpecLabel>, key: Seq<char>, value: Seq<char>) -> Seq<SpecLabel>
    decreases s.len(),
{
    if s.len() == 0 {
        seq![(key, value)]
    } else if s[0].0 == key {
        seq![(key, value)] + s.drop_first()
    } else if key_lt(key, s[0].0) {
        seq![(key, value)] + s
    } else {
        seq![s[0]] + insert_sorted(s.drop_first(), key, value)
    }
}

/// The value of `key` among `s`, if any.
pub open spec fn label_get(s: Seq<SpecLabel>, key: Seq<char>) -> Option<Seq<char>>
    decreases s.len(),
{
    if s.len() == 0 {
        None
    } else if s[0].0 == key {
        Some(s[0].1)
    } else {
        label_get(s.drop_first(), key)
    }
}

/// A key below every key of `s` and below `key` stays below every key once
/// `key` is set.
proof fn lemma_insert_sorted_lower(s: Seq<SpecLabel>, key: Seq<char>, value: Seq<char>, low: Seq<char>)
    requires
        forall|j: int| 0 <= j < s.len() ==> key_lt(low, #[trigger] s[j].0),
        key_lt(low, key),
    ensures
        forall|j: int| 0 <= j < insert_sorted(s, key, value).len()
            ==> key_lt(low, #[trigger] insert_sorted(s, key, value)[j].0),
    decreases s.len(),
{
    if s.len() > 0 && s[0].0 != key && !key_lt(key, s[0].0) {
        let rest = s.drop_first();
        assert forall|j: int| 0 <= j < rest.len() implies key_lt(low, #[trigger] rest[j].0) by {
            assert(rest[j] == s[j + 1]);
        }
        lemma_insert_sorted_lower(rest, key, value, low);
        let r = insert_sorted(s, key, value);
        assert forall|j: int| 0 <= j < r.len() implies key_lt(low, #[trigger] r[j].0) by {
            if j > 0 {
                assert(r[j] == insert_sorted(rest, key, value)[j - 1]);
            }
        }
    } else {
        let r = insert_sorted(s, key, value);
        assert forall|j: int| 0 <= j < r.len() implies key_lt(low, #[trigger] r[j].0) by {
            if j > 0 && s.len() > 0 {
                if s[0].0 == key {
                    assert(r[j] == s[j]);
                } else {
                    assert(r[j] == s[j - 1]);
                }
            }
        }
    }
}

/// Setting a key keeps the keys strictly increasing.
pub proof fn lemma_insert_sorted_sorted(s: Seq<SpecLabel>, key: Seq<char>, value: Seq<char>)
    requires
        sorted_keys(s),
    ensures
        sorted_keys(insert_sorted(s, key, value)),
    decreases s.len(),
{
    let r = insert_sorted(s, key, value);
    if s.len() == 0 {
    } else if s[0].0 == key {
        assert forall|i: int, j: int| 0 <= i < j < r.len() implies key_lt(#[trigger] r[i].0, #[trigger] r[j].0) by {
            assert(r[j] == s[j]);
            if i > 0 {
                assert(r[i] == s[i]);
            }
        }
    } else if key_lt(key, s[0].0) {
        assert forall|i: int, j: int| 0 <= i < j < r.len() implies key_lt(#[trigger] r[i].0, #[trigger] r[j].0) by {
            assert(r[j] == s[j - 1]);
            if i > 0 {
                assert(r[i] == s[i - 1]);
            } else if j > 1 {
                lemma_key_lt_trans(key, s[0].0, s[j - 1].0);
            }
        }
    } else {
        let rest = s.drop_first();
        assert(sorted_keys(rest)) by {
            assert forall|i: int, j: int| 0 <= i < j < rest.len() implies key_lt(#[trigger] rest[i].0, #[trigger] rest[j].0) by {
                assert(rest[i] == s[i + 1]);
                assert(rest[j] == s[j + 1]);
            }
        }
        lemma_insert_sorted_sorted(rest, key, value);
        lemma_key_lt_total(key, s[0].0);
        assert forall|j: int| 0 <= j < rest.len() implies key_lt(s[0].0, #[trigger] rest[j].0) by {
            assert(rest[j] == s[j + 1]);
        }
        lemma_insert_sorted_lower(rest, key, value, s[0].0);
        let ri = insert_sorted(rest, key, value);
        assert forall|i: int, j: int| 0 <= i < j < r.len() implies key_lt(#[trigger] r[i].0, #[trigger] r[j].0) by {
            assert(r[j] == ri[j - 1]);
            if i > 0 {
                assert(r[i] == ri[i - 1]);
            }
        }
    }
}

/// What a read gives back of a write: once `key` is set to `value`, it reads
/// back as `value`, and every other key reads back as before.
pub proof fn lemma_get_insert(s: Seq<SpecLabel>, key: Seq<char>, value: Seq<char>, other: Seq<char>)
    ensures
        label_get(insert_sorted(s, key, value), key) == Some(value),
        other != key ==> label_get(insert_sorted(s, key, value), other) == label_get(s, other),
    decreases s.len(),
{
    let r = insert_sorted(s, key, value);
    if s.len() == 0 {
        assert(r.drop_first() =~= s);
    } else if s[0].0 == key {
        assert(r.drop_first() =~= s.drop_first());
    } else if key_lt(key, s[0].0) {
        assert(r.drop_first() =~= s);
    } else {
        lemma_get_insert(s.drop_first(), key, value, other);
        assert(r.drop_first() =~= insert_sorted(s.drop_first(), key, value));
    }
}

/// A set of labels: at most one value per key, kept in increasing key order.
#[derive(Debug, PartialEq, Eq)]
pub struct Labels {
    entries: Vec<(String, String)>,
}

/// The plain values of stored labels.
pub open spec fn pairs_view(v: Seq<(String, String)>) -> Seq<SpecLabel> {
    v.map_values(|p: (String, String)| (p.0@, p.1@))
}

impl View for Labels {
    type V = Seq<SpecLabel>;

    closed spec fn view(&self) -> Seq<SpecLabel> {
        pairs_view(self.entries@)
    }
}

/// Whether `a` comes before `b` in key order.
fn key_less(a: &str, b: &str) -> (r: bool)
    ensures
        r == key_lt(a@, b@),
{
    let x = chars_of(a);
    let y = chars_of(b);
    let mut i: usize = 0;
    assert(a@.skip(0) =~= a@);
    assert(b@.skip(0) =~= b@);
    while i < x.len() && i < y.len() && x[i] == y[i]
        invariant
            x@ == a@,
            y@ == b@,
            i <= x.len(),
            i <= y.len(),
            key_lt(a@, b@) == key_lt(a@.skip(i as int), b@.skip(i as int)),
        decreases x.len() - i,
    {
        assert(a@.skip(i as int).drop_first() =~= a@.skip(i + 1));
        assert(b@.skip(i as int).drop_first() =~= b@.skip(i + 1));
        i = i + 1;
    }
    if i == x.len() {
        i < y.len()
    } else if i == y.len() {
        false
    } else {
        x[i] < y[i]
    }
}

impl Labels {
    #[verifier::type_invariant]
    spec fn keys_increase(self) -> bool {
        sorted_keys(pairs_view(self.entries@))
    }

    /// An empty set of labels.
    pub fn new() -> (r: Labels)
        ensures
            r@ == Seq::<SpecLabel>::empty(),
    {
        let r = Labels { entries: Vec::new() };
        assert(pairs_view(r.entries@) =~= Seq::<SpecLabel>::empty());
        r
    }

    /// The number of labels.
    pub fn len(&self) -> (r: usize)
        ensures
            r == self@.len(),
    {
        self.entries.len()
    }

    /// The labels, in increasing key order.
    pub fn pairs(&self) -> (r: &Vec<(String, String)>)
        ensures
            pairs_view(r@) == self@,
            sorted_keys(self@),
    {
        proof {
            use_type_invariant(self);
        }
        &self.entries
    }

    /// The value of `key`, if it is set.
    pub fn get(&self, key: &str) -> (r: Option<&str>)
        ensures
            crate::env::opt_view(r) == label_get(self@, key@),
    {
        let ghost all = pairs_view(self.entries@);
        let mut i: usize = 0;
        assert(all.skip(0) =~= all);
        while i < self.entries.len()
            invariant
                all == pairs_view(self.entries@),
                all == self@,
                i <= self.entries.len(),
                label_get(all, key@) == label_get(all.skip(i as int), key@),
            decreases self.entries.len() - i,
        {
            assert(all.skip(i as int)[0] == all[i as int]);
            if str_equal(self.entries[i].0.as_str(), key) {
                return Some(self.entries[i].1.as_str());
            }
            assert(all.skip(i as int).drop_first() =~= all.skip(i + 1));
            i = i + 1;
        }
        None
    }

    /// Sets `key` to `value`, replacing the value it had.
    pub fn insert(&mut self, key: String, value: String)
        ensures
            final(self)@ == insert_sorted(old(self)@, key@, value@),
    {
        proof {
            use_type_invariant(&*self);
        }
        let mut v: Vec<(String, String)> = Vec::new();
        std::mem::swap(&mut v, &mut self.entries);
        let ghost s = pairs_view(v@);
        assert(s == old(self)@);
        let mut i: usize = 0;
        assert(s.skip(0) =~= s);
        assert(s.take(0) =~= Seq::<SpecLabel>::empty());
        let mut placed = false;
        while i < v.len() && !placed
            invariant
                s == pairs_view(old(self).entries@),
                sorted_keys(s),
                !placed ==> v@ == old(self).entries@,
                !placed ==> i <= v.len(),
                !placed ==> insert_sorted(s, key@, value@) == s.take(i as int) + insert_sorted(
                    s.skip(i as int),
                    key@,
                    value@,
                ),
                placed ==> pairs_view(v@) == insert_sorted(s, key@, value@),
            decreases (if placed { 0int } else { old(self).entries.len() - i + 1 }),
        {
            let ghost rest = s.skip(i as int);
            assert(rest[0] == s[i as int]);
            if str_equal(v[i].0.as_str(), key.as_str()) {
                let ghost old_v = v@;
                v.remove(i);
                v.insert(i, (key.clone(), value.clone()));
                proof {
                    assert(insert_sorted(rest, key@, value@) =~= seq![(key@, value@)] + rest.drop_first());
                    assert(pairs_view(v@) =~= s.take(i as int) + insert_sorted(rest, key@, value@));
                }
                placed = true;
            } else if key_less(key.as_str(), v[i].0.as_str()) {
                v.insert(i, (key.clone(), value.clone()));
                proof {
                    assert(insert_sorted(rest, key@, value@) =~= seq![(key@, value@)] + rest);
                    assert(pairs_view(v@) =~= s.take(i as int) + insert_sorted(rest, key@, value@));
                }
                placed = true;
            } else {
                proof {
                    assert(rest.drop_first() =~= s.skip(i + 1));
                    assert(s.take(i + 1) =~= s.take(i as int) + seq![rest[0]]);
                    assert(insert_sorted(rest, key@, value@) =~= seq![rest[0]] + insert_sorted(
                        s.skip(i + 1),
                        key@,
                        value@,
                    ));
                    assert(s.take(i as int) + insert_sorted(rest, key@, value@) =~= s.take(i + 1)
                        + insert_sorted(s.skip(i + 1), key@, value@));
                }
                i = i + 1;
            }
        }
        if !placed {
            v.push((key, value));
            proof {
                assert(s.skip(i as int) =~= Seq::<SpecLabel>::empty());
                assert(s.take(i as int) =~= s);
                assert(pairs_view(v@) =~= s + seq![(key@, value@)]);
            }
        }
        proof {
            lemma_insert_sorted_sorted(s, key@, value@);
        }
        self.entries = v;
    }
}

// ---------------------------------------------------------------------------
// Encoding and decoding
// ---------------------------------------------------------------------------

/// One label as text: `key=value`.
pub open spec fn pair_text(p: SpecLabel) -> Seq<char> {
    p.0 + seq!['='] + p.1
}

/// Labels as text: each as `key=value`, in order, joined by single spaces.
pub open spec fn spec_encode(s: Seq<SpecLabel>) -> Seq<char>
    decreases s.len(),
{
    if s.len() == 0 {
        seq![]
    } else if s.len() == 1 {
        pair_text(s[0])
    } else {
        pair_text(s[0]) + seq![' '] + spec_encode(s.drop_first())
    }
}

/// Index of the first whitespace character of `s`, or `s.len()`.
pub open spec fn first_ws(s: Seq<char>) -> nat
    decreases s.len(),
{
    if s.len() == 0 {
        0
    } else if is_ws(s[0]) {
        0
    } else {
        1 + first_ws(s.drop_first())
    }
}

pub proof fn lemma_first_ws_facts(s: Seq<char>)
    ensures
        first_ws(s) <= s.len(),
        forall|j: int| 0 <= j < first_ws(s) ==> !is_ws(#[trigger] s[j]),
        first_ws(s) < s.len() ==> is_ws(s[first_ws(s) as int]),
    decreases s.len(),
{
    if s.len() > 0 && !is_ws(s[0]) {
        lemma_first_ws_facts(s.drop_first());
        assert forall|j: int| 0 <= j < first_ws(s) implies !is_ws(#[trigger] s[j]) by {
            if j > 0 {
                assert(s[j] == s.drop_first()[j - 1]);
            }
        }
    }
}

proof fn lemma_first_ws_is(s: Seq<char>, k: int)
    requires
        0 <= k <= s.len(),
        forall|j: int| 0 <= j < k ==> !is_ws(#[trigger] s[j]),
        k == s.len() || is_ws(s[k]),
    ensures
        first_ws(s) == k,
    decreases s.len(),
{
    if s.len() > 0 && !is_ws(s[0]) {
        assert forall|j: int| 0 <= j < k - 1 implies !is_ws(#[trigger] s.drop_first()[j]) by {
            assert(s.drop_first()[j] == s[j + 1]);
        }
        lemma_first_ws_is(s.drop_first(), k - 1);
    }
}

/// The words of `s` as `str::split_whitespace` yields them: the maximal runs
/// of characters that are not whitespace, in order.
pub open spec fn words(s: Seq<char>) -> Seq<Seq<char>>
    decreases s.len(),
{
    if s.len() == 0 {
        seq![]
    } else if is_ws(s[0]) {
        words(s.drop_first())
    } else {
        let n = first_ws(s);
        proof {
            lemma_first_ws_facts(s);
        }
        seq![s.take(n as int)] + words(s.skip(n as int))
    }
}

/// The label a word stands for: split at its first `=`; a word without `=`
/// stands for none.
pub open spec fn word_pair(w: Seq<char>) -> Option<SpecLabel> {
    let e = first_index(w, '=');
    if e < w.len() {
        Some((w.take(e as int), w.skip(e + 1int)))
    } else {
        None
    }
}

/// `acc` with the labels that the words stand for set in turn; a later label
/// of the same key wins.
pub open spec fn collect_words(acc: Seq<SpecLabel>, ws: Seq<Seq<char>>) -> Seq<SpecLabel>
    decreases ws.len(),
{
    if ws.len() == 0 {
        acc
    } else {
        let next = match word_pair(ws[0]) {
            Some(p) => insert_sorted(acc, p.0, p.1),
            None => acc,
        };
        collect_words(next, ws.drop_first())
    }
}

/// The labels a text stands for.
pub open spec fn spec_decode(s: Seq<char>) -> Seq<SpecLabel> {
    collect_words(Seq::empty(), words(s))
}

/// The text of `s` with one more label at the end.
proof fn lemma_encode_push(s: Seq<SpecLabel>, p: SpecLabel)
    ensures
        spec_encode(s.push(p)) == if s.len() == 0 {
            pair_text(p)
        } else {
            spec_encode(s) + seq![' '] + pair_text(p)
        },
    decreases s.len(),
{
    let sp = s.push(p);
    if s.len() == 0 {
        assert(sp[0] == p);
    } else if s.len() == 1 {
        assert(sp[0] == s[0]);
        assert(sp.drop_first() =~= seq![p]);
        assert(spec_encode(sp.drop_first()) == pair_text(p));
    } else {
        lemma_encode_push(s.drop_first(), p);
        assert(sp[0] == s[0]);
        assert(sp.drop_first() =~= s.drop_first().push(p));
        assert(spec_encode(sp) =~= spec_encode(s) + seq![' '] + pair_text(p));
    }
}

/// Encodes labels as `key=value` pairs in increasing key order, joined by
/// single spaces.
pub fn encode(labels: &Labels) -> (r: String)
    ensures
        r@ == spec_encode(labels@),
        sorted_keys(labels@),
{
    let pairs = labels.pairs();
    let ghost all = pairs_view(pairs@);
    let mut out = String::new();
    let mut i: usize = 0;
    assert(all.take(0) =~= Seq::<SpecLabel>::empty());
    while i < pairs.len()
        invariant
            all == pairs_view(pairs@),
            i <= pairs.len(),
            out@ == spec_encode(all.take(i as int)),
        decreases pairs.len() - i,
    {
        let ghost before = out@;
        if i > 0 {
            push_char(&mut out, ' ');
        }
        out.append(pairs[i].0.as_str());
        push_char(&mut out, '=');
        out.append(pairs[i].1.as_str());
        proof {
            assert(all.take(i + 1) =~= all.take(i as int).push(all[i as int]));
            lemma_encode_push(all.take(i as int), all[i as int]);
        }
        i = i + 1;
    }
    assert(all.take(pairs.len() as int) =~= all);
    out
}

/// Position of the first whitespace character in `chars[from..to]`, or `to`.
fn find_ws(chars: &Vec<char>, from: usize, to: usize) -> (r: usize)
    requires
        from <= to <= chars.len(),
    ensures
        from <= r <= to,
        r == from + first_ws(chars@.subrange(from as int, to as int)),
{
    let mut i = from;
    while i < to && !is_whitespace(chars[i])
        invariant
            from <= i <= to <= chars.len(),
            forall|j: int| from <= j < i ==> !is_ws(#[trigger] chars@[j]),
        decreases to - i,
    {
        i = i + 1;
    }
    proof {
        let sub = chars@.subrange(from as int, to as int);
        assert forall|j: int| 0 <= j < i - from implies !is_ws(#[trigger] sub[j]) by {
            assert(sub[j] == chars@[from + j]);
        }
        lemma_first_ws_is(sub, i - from);
    }
    i
}

/// Decodes the labels in a text of whitespace-separated `key=value` words;
/// words without `=` are skipped, and a later word for the same key wins.
pub fn decode(text: &str) -> (r: Labels)
    ensures
        r@ == spec_decode(text@),
        sorted_keys(r@),
{
    let chars = chars_of(text);
    let n = chars.len();
    let mut labels = Labels::new();
    let mut i: usize = 0;
    assert(text@.skip(0) =~= text@);
    while i < n
        invariant
            chars@ == text@,
            n == chars.len(),
            i <= n,
            collect_words(labels@, words(text@.skip(i as int))) == spec_decode(text@),
        decreases n - i,
    {
        let ghost rest = text@.skip(i as int);
        assert(rest[0] == chars@[i as int]);
        if is_whitespace(chars[i]) {
            assert(rest.drop_first() =~= text@.skip(i + 1));
            i = i + 1;
        } else {
            let end = find_ws(&chars, i, n);
            let ghost before = labels@;
            proof {
                assert(rest =~= chars@.subrange(i as int, n as int));
                lemma_first_ws_facts(rest);
            }
            let ghost word = rest.take(end - i);
            assert(word =~= chars@.subrange(i as int, end as int));
            assert(rest.skip(end - i) =~= text@.skip(end as int));
            let eq = find_char(&chars, i, end, '=');
            if eq < end {
                let key = text.substring_char(i, eq).to_owned();
                let value = text.substring_char(eq + 1, end).to_owned();
                assert(key@ =~= word.take(eq - i));
                assert(value@ =~= word.skip(eq - i + 1));
                labels.insert(key, value);
            }
            proof {
                let ws = words(rest);
                assert(ws[0] == word);
                assert(ws.drop_first() =~= words(text@.skip(end as int)));
            }
            i = end;
        }
    }
    assert(text@.skip(n as int) =~= Seq::<char>::empty());
    proof {
        use_type_invariant(&labels);
    }
    labels
}

// ---------------------------------------------------------------------------
// What decoding gives back of encoding
// ---------------------------------------------------------------------------

/// Whether a label survives its text form: its key holds neither whitespace
/// nor `=`, and its value holds no whitespace.
pub open spec fn survives_text(p: SpecLabel) -> bool {
    &&& forall|i: int| 0 <= i < p.0.len() ==> !is_ws(#[trigger] p.0[i]) && p.0[i] != '='
    &&& forall|i: int| 0 <= i < p.1.len() ==> !is_ws(#[trigger] p.1[i])
}

/// A word ended by the end of the text or by whitespace is the first word.
proof fn lemma_words_cons(t: Seq<char>, rest: Seq<char>)
    requires
        t.len() > 0,
        forall|i: int| 0 <= i < t.len() ==> !is_ws(#[trigger] t[i]),
        rest.len() == 0 || is_ws(rest[0]),
    ensures
        words(t + rest) == seq![t] + words(rest),
{
    let s = t + rest;
    assert forall|j: int| 0 <= j < t.len() implies !is_ws(#[trigger] s[j]) by {
        assert(s[j] == t[j]);
    }
    lemma_first_ws_is(s, t.len() as int);
    assert(s[0] == t[0]);
    assert(s.take(t.len() as int) =~= t);
    assert(s.skip(t.len() as int) =~= rest);
}

/// The words of encoded labels are their `key=value` texts.
proof fn lemma_words_encode(s: Seq<SpecLabel>)
    requires
        forall|i: int| 0 <= i < s.len() ==> survives_text(#[trigger] s[i]),
    ensures
        words(spec_encode(s)) == s.map_values(|p: SpecLabel| pair_text(p)),
    decreases s.len(),
{
    if s.len() > 0 {
        let t = pair_text(s[0]);
        assert(survives_text(s[0]));
        assert forall|i: int| 0 <= i < t.len() implies !is_ws(#[trigger] t[i]) by {
            if i < s[0].0.len() {
                assert(t[i] == s[0].0[i]);
            } else if i > s[0].0.len() {
                assert(t[i] == s[0].1[i - s[0].0.len() - 1]);
            }
        }
        let rest = s.drop_first();
        assert forall|i: int| 0 <= i < rest.len() implies survives_text(#[trigger] rest[i]) by {
            assert(rest[i] == s[i + 1]);
        }
        if s.len() == 1 {
            lemma_words_cons(t, Seq::empty());
            assert(t + Seq::<char>::empty() =~= t);
        } else {
            let tail = spec_encode(rest);
            lemma_words_encode(rest);
            lemma_words_cons(t, seq![' '] + tail);
            assert(spec_encode(s) =~= t + (seq![' '] + tail));
            assert((seq![' '] + tail).drop_first() =~= tail);
        }
        assert(s.map_values(|p: SpecLabel| pair_text(p)) =~= seq![t] + rest.map_values(
            |p: SpecLabel| pair_text(p),
        ));
    }
}

/// The text of a label whose key holds no `=` reads back as that label.
proof fn lemma_word_pair(p: SpecLabel)
    requires
        forall|i: int| 0 <= i < p.0.len() ==> p.0[i] != '=',
    ensures
        word_pair(pair_text(p)) == Some(p),
{
    let t = pair_text(p);
    crate::text::lemma_first_index_is(t, '=', p.0.len() as int);
    assert(t.take(p.0.len() as int) =~= p.0);
    assert(t.skip(p.0.len() + 1int) =~= p.1);
}

/// Setting a key greater than every key of `acc` appends it.
proof fn lemma_insert_greatest(acc: Seq<SpecLabel>, key: Seq<char>, value: Seq<char>)
    requires
        forall|j: int| 0 <= j < acc.len() ==> key_lt(#[trigger] acc[j].0, key),
    ensures
        insert_sorted(acc, key, value) == acc.push((key, value)),
    decreases acc.len(),
{
    if acc.len() > 0 {
        assert(key_lt(acc[0].0, key));
        lemma_key_lt_total(acc[0].0, key);
        let rest = acc.drop_first();
        assert forall|j: int| 0 <= j < rest.len() implies key_lt(#[trigger] rest[j].0, key) by {
            assert(rest[j] == acc[j + 1]);
        }
        lemma_insert_greatest(rest, key, value);
        assert(acc.push((key, value)) =~= seq![acc[0]] + rest.push((key, value)));
    }
}

/// Collecting the texts of labels in increasing key order after labels of
/// smaller keys appends them.
proof fn lemma_collect_sorted(acc: Seq<SpecLabel>, s: Seq<SpecLabel>)
    requires
        sorted_keys(acc + s),
        forall|i: int| 0 <= i < s.len() ==> survives_text(#[trigger] s[i]),
    ensures
        collect_words(acc, s.map_values(|p: SpecLabel| pair_text(p))) == acc + s,
    decreases s.len(),
{
    let ts = s.map_values(|p: SpecLabel| pair_text(p));
    if s.len() == 0 {
        assert(acc + s =~= acc);
    } else {
        let all = acc + s;
        assert(survives_text(s[0]));
        lemma_word_pair(s[0]);
        assert(ts[0] == pair_text(s[0]));
        assert forall|j: int| 0 <= j < acc.len() implies key_lt(#[trigger] acc[j].0, s[0].0) by {
            assert(all[j] == acc[j]);
            assert(all[acc.len() as int] == s[0]);
        }
        lemma_insert_greatest(acc, s[0].0, s[0].1);
        let rest = s.drop_first();
        let next = acc.push(s[0]);
        assert(next + rest =~= all);
        assert forall|i: int| 0 <= i < rest.len() implies survives_text(#[trigger] rest[i]) by {
            assert(rest[i] == s[i + 1]);
        }
        lemma_collect_sorted(next, rest);
        assert(ts.drop_first() =~= rest.map_values(|p: SpecLabel| pair_text(p)));
    }
}

/// What decoding gives back of encoding: the text of a set of labels (keys
/// strictly increasing) decodes to the same labels, provided no key holds
/// whitespace or `=` and no value holds whitespace.
pub proof fn lemma_decode_encode(s: Seq<SpecLabel>)
    requires
        sorted_keys(s),
        forall|i: int| 0 <= i < s.len() ==> survives_text(#[trigger] s[i]),
    ensures
        spec_decode(spec_encode(s)) == s,
{
    lemma_words_encode(s);
    assert(Seq::<SpecLabel>::empty() + s =~= s);
    lemma_collect_sorted(Seq::empty(), s);
}

/// A label that passes validation survives its text form.
pub proof fn lemma_valid_label_survives(key: Seq<char>, value: Seq<char>)
    requires
        spec_validate(key, value) is Ok,
    ensures
        survives_text((key, value)),
{
}

/// A pair that parses is its key, `=` and its value; and the text of a valid
/// label parses back to that label.
pub proof fn lemma_parse_pair_text(pair: Seq<char>, key: Seq<char>, value: Seq<char>)
    ensures
        spec_parse_pair(pair) == Ok::<_, Seq<char>>((key, value)) ==> pair == pair_text(
            (key, value),
        ),
        spec_validate(key, value) is Ok ==> spec_parse_pair(pair_text((key, value))) == Ok::<
            _,
            Seq<char>,
        >((key, value)),
{
    crate::text::lemma_first_index_facts(pair, '=');
    let e = first_index(pair, '=');
    if e < pair.len() {
        assert(pair =~= pair.take(e as int) + seq!['='] + pair.skip(e + 1int));
    }
    if spec_validate(key, value) is Ok {
        lemma_word_pair((key, value));
    }
}

/// Whether every character of `s` is an ASCII letter, an ASCII digit, `-`,
/// `_` or `.`, written out by ranges.
pub open spec fn ascii_word(s: Seq<char>) -> bool {
    forall|i: int|
        0 <= i < s.len() ==> {
            ||| 'a' <= #[trigger] s[i] <= 'z'
            ||| 'A' <= s[i] <= 'Z'
            ||| '0' <= s[i] <= '9'
            ||| s[i] == '-'
            ||| s[i] == '_'
            ||| s[i] == '.'
        }
}

/// Which keys are refused as built-in fields: exactly `name`, `start_dir`
/// and `cmd`. A non-empty key of letters, digits, `-`, `_` and `.` that is
/// none of them validates; each of them is refused as read-only.
pub proof fn lemma_validate_key_law(key: Seq<char>)
    ensures
        key.len() > 0 && ascii_word(key) && key != "name"@ && key != "start_dir"@ && key
            != "cmd"@ ==> spec_validate(key, Seq::empty()) == Ok::<(), Seq<char>>(()),
        (key == "name"@ || key == "start_dir"@ || key == "cmd"@) ==> spec_validate(
            key,
            Seq::empty(),
        ) == Err::<(), Seq<char>>(reserved_error(key)),
{
    reveal_strlit("name");
    reveal_strlit("start_dir");
    reveal_strlit("cmd");
}

/// Which pairs parse: `key=value` parses to `(key, value)` whenever the key
/// is not empty and is none of `name`, `start_dir`, `cmd`, and key and value
/// are made of ASCII letters, digits, `-`, `_` and `.` only.
pub proof fn lemma_parse_pair_accepts(key: Seq<char>, value: Seq<char>)
    requires
        key.len() > 0,
        ascii_word(key),
        ascii_word(value),
        key != "name"@,
        key != "start_dir"@,
        key != "cmd"@,
    ensures
        spec_parse_pair(key + seq!['='] + value) == Ok::<_, Seq<char>>((key, value)),
{
    lemma_validate_key_law(key);
    assert(spec_validate(key, value) is Ok);
    lemma_parse_pair_text(key + seq!['='] + value, key, value);
}

} // verus!
