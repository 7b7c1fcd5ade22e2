//! Configuration document codec.
//!
//! A document is line-oriented text. A line of the shape `[name]` opens a
//! section; every other line belongs to the section opened by the nearest
//! header above it (or to the preamble). Inside a section, a line of the
//! shape `key = "value"` binds a field, with `"`, `\`, newline and carriage
//! return escaped in the value. Loading extracts one section's fields;
//! persisting replaces one section's known fields while keeping every other
//! line of the document verbatim.

use vstd::prelude::*;

verus! {

// ---------------------------------------------------------------------------
// Lines
// ---------------------------------------------------------------------------

/// A character sequence that can stand as one line of a document.
pub open spec fn no_newline(s: Seq<char>) -> bool {
    forall|i: int| 0 <= i < s.len() ==> s[i] != '\n'
}

/// Split text into its lines: the separators are the `'\n'` characters, and
/// a text of n separators has n + 1 lines.
pub open spec fn lines_of(t: Seq<char>) -> Seq<Seq<char>>
    decreases t.len(),
{
    if t.len() == 0 {
        seq![Seq::<char>::empty()]
    } else if t[0] == '\n' {
        seq![Seq::<char>::empty()] + lines_of(t.drop_first())
    } else {
        let rest = lines_of(t.drop_first());
        seq![seq![t[0]] + rest[0]] + rest.drop_first()
    }
}

/// Join lines with `'\n'` separators.
pub open spec fn unlines(ls: Seq<Seq<char>>) -> Seq<char>
    decreases ls.len(),
{
    if ls.len() == 0 {
        Seq::<char>::empty()
    } else if ls.len() == 1 {
        ls[0]
    } else {
        ls[0] + seq!['\n'] + unlines(ls.drop_first())
    }
}

/// Splitting any text yields at least one line.
pub proof fn lemma_lines_of_nonempty(t: Seq<char>)
    ensures
        lines_of(t).len() >= 1,
    decreases t.len(),
{
    if t.len() != 0 && t[0] != '\n' {
        lemma_lines_of_nonempty(t.drop_first());
    }
}

/// Every line produced by splitting is free of newlines.
pub proof fn lemma_lines_of_no_newline(t: Seq<char>)
    ensures
        forall|i: int| 0 <= i < lines_of(t).len() ==> no_newline(#[trigger] lines_of(t)[i]),
    decreases t.len(),
{
    if t.len() == 0 {
        assert(no_newline(lines_of(t)[0]));
    } else if t[0] == '\n' {
        lemma_lines_of_no_newline(t.drop_first());
        let rest = lines_of(t.drop_first());
        assert forall|i: int| 0 <= i < lines_of(t).len() implies no_newline(
            #[trigger] lines_of(t)[i],
        ) by {
            if i > 0 {
                assert(lines_of(t)[i] == rest[i - 1]);
                assert(no_newline(rest[i - 1]));
            }
        }
    } else {
        lemma_lines_of_no_newline(t.drop_first());
        lemma_lines_of_nonempty(t.drop_first());
        let rest = lines_of(t.drop_first());
        assert forall|i: int| 0 <= i < lines_of(t).len() implies no_newline(
            #[trigger] lines_of(t)[i],
        ) by {
            if i == 0 {
                assert(no_newline(rest[0]));
                assert(lines_of(t)[0] == seq![t[0]] + rest[0]);
                assert(forall|j: int|
                    0 <= j < lines_of(t)[0].len() ==> lines_of(t)[0][j] != '\n');
            } else {
                assert(lines_of(t)[i] == rest[i]);
                assert(no_newline(rest[i]));
            }
        }
    }
}

/// Splitting a single newline-free line yields just that line.
pub proof fn lemma_lines_of_single(l: Seq<char>)
    requires
        no_newline(l),
    ensures
        lines_of(l) == seq![l],
    decreases l.len(),
{
    if l.len() == 0 {
        assert(l =~= Seq::<char>::empty());
        assert(lines_of(l) =~~= seq![l]);
    } else {
        assert(l[0] != '\n');
        assert(no_newline(l.drop_first()));
        lemma_lines_of_single(l.drop_first());
        let rest = lines_of(l.drop_first());
        assert(rest == seq![l.drop_first()]);
        assert(rest[0] == l.drop_first());
        assert(seq![l[0]] + rest[0] =~= l);
        assert(rest.drop_first() =~~= Seq::<Seq<char>>::empty());
        assert(lines_of(l) =~~= seq![l]);
    }
}

/// Splitting `a ++ '\n' ++ b` with `a` newline-free peels off `a` as the
/// first line.
pub proof fn lemma_lines_of_concat(a: Seq<char>, b: Seq<char>)
    requires
        no_newline(a),
    ensures
        lines_of(a + seq!['\n'] + b) == seq![a] + lines_of(b),
    decreases a.len(),
{
    let t = a + seq!['\n'] + b;
    if a.len() == 0 {
        assert(t =~= seq!['\n'] + b);
        assert(t[0] == '\n');
        assert(t.drop_first() =~= b);
        assert(a =~= Seq::<char>::empty());
        assert(lines_of(t) =~~= seq![a] + lines_of(b));
    } else {
        assert(t[0] == a[0]);
        assert(t[0] != '\n');
        assert(no_newline(a.drop_first()));
        assert(t.drop_first() =~= a.drop_first() + seq!['\n'] + b);
        lemma_lines_of_concat(a.drop_first(), b);
        let rest = lines_of(t.drop_first());
        lemma_lines_of_nonempty(b);
        assert(rest == seq![a.drop_first()] + lines_of(b));
        assert(rest[0] == a.drop_first());
        assert(seq![t[0]] + rest[0] =~= a);
        assert(rest.drop_first() =~~= lines_of(b));
        assert(lines_of(t) =~~= seq![a] + lines_of(b));
    }
}

/// Splitting is the inverse of joining, for a nonempty list of
/// newline-free lines.
pub proof fn lemma_lines_of_unlines(ls: Seq<Seq<char>>)
    requires
        ls.len() >= 1,
        forall|i: int| 0 <= i < ls.len() ==> no_newline(#[trigger] ls[i]),
    ensures
        lines_of(unlines(ls)) == ls,
    decreases ls.len(),
{
    if ls.len() == 1 {
        lemma_lines_of_single(ls[0]);
        assert(lines_of(unlines(ls)) =~~= ls);
    } else {
        assert(forall|i: int|
            0 <= i < ls.drop_first().len() ==> no_newline(#[trigger] ls.drop_first()[i]));
        lemma_lines_of_unlines(ls.drop_first());
        lemma_lines_of_concat(ls[0], unlines(ls.drop_first()));
        assert(lines_of(unlines(ls)) =~~= ls);
    }
}

// ---------------------------------------------------------------------------
// Section headers
// ---------------------------------------------------------------------------

/// A line of the shape `[name]`.
pub open spec fn is_header(l: Seq<char>) -> bool {
    l.len() >= 2 && l[0] == '[' && l[l.len() - 1] == ']'
}

/// The name between the brackets of a header line.
pub open spec fn header_name(l: Seq<char>) -> Seq<char>
    recommends
        is_header(l),
{
    l.subrange(1, l.len() - 1)
}

/// The header line that opens the section of a given name.
pub open spec fn header_line(name: Seq<char>) -> Seq<char> {
    seq!['['] + name + seq![']']
}

/// A built header line is a header, of exactly the given name.
pub proof fn lemma_header_line(name: Seq<char>)
    ensures
        is_header(header_line(name)),
        header_name(header_line(name)) == name,
{
    let l = header_line(name);
    assert(l.len() == name.len() + 2);
    assert(l[l.len() - 1] == ']');
    assert(header_name(l) =~= name);
}

// ---------------------------------------------------------------------------
// Value escaping
// ---------------------------------------------------------------------------

/// The characters that cannot stand raw inside a quoted value.
pub open spec fn escaped(c: char) -> bool {
    c == '"' || c == '\\' || c == '\n' || c == '\r'
}

/// The code letter written after a backslash for an escaped character.
pub open spec fn esc_code(c: char) -> char
    recommends
        escaped(c),
{
    if c == '"' {
        '"'
    } else if c == '\\' {
        '\\'
    } else if c == '\n' {
        'n'
    } else {
        'r'
    }
}

/// The character stood for by a code letter after a backslash.
pub open spec fn unesc(d: char) -> char {
    if d == 'n' {
        '\n'
    } else if d == 'r' {
        '\r'
    } else {
        d
    }
}

/// Encode a value for a quoted field: escape `"`, `\`, newline and
/// carriage return; every other character stands for itself.
pub open spec fn encode(v: Seq<char>) -> Seq<char>
    decreases v.len(),
{
    if v.len() == 0 {
        Seq::<char>::empty()
    } else if escaped(v[0]) {
        seq!['\\', esc_code(v[0])] + encode(v.drop_first())
    } else {
        seq![v[0]] + encode(v.drop_first())
    }
}

/// A character sequence that is a well-formed encoding: every backslash is
/// followed by a code letter, and no raw quote, newline or carriage return
/// occurs.
pub open spec fn valid_enc(e: Seq<char>) -> bool
    decreases e.len(),
{
    if e.len() == 0 {
        true
    } else if e[0] == '\\' {
        e.len() >= 2 && (e[1] == 'n' || e[1] == 'r' || e[1] == '"' || e[1] == '\\') && valid_enc(
            e.skip(2),
        )
    } else {
        e[0] != '"' && e[0] != '\n' && e[0] != '\r' && valid_enc(e.skip(1))
    }
}

/// Decode a well-formed encoding back to the value it stands for.
pub open spec fn decode(e: Seq<char>) -> Seq<char>
    recommends
        valid_enc(e),
    decreases e.len(),
{
    if e.len() == 0 {
        Seq::<char>::empty()
    } else if e[0] == '\\' && e.len() >= 2 {
        seq![unesc(e[1])] + decode(e.skip(2))
    } else {
        seq![e[0]] + decode(e.skip(1))
    }
}

/// The encoding of any value is well-formed, decodes back to that value,
/// and contains no newline.
pub proof fn lemma_encode_ok(v: Seq<char>)
    ensures
        valid_enc(encode(v)),
        decode(encode(v)) == v,
        no_newline(encode(v)),
    decreases v.len(),
{
    if v.len() == 0 {
        assert(decode(encode(v)) =~= v);
    } else {
        lemma_encode_ok(v.drop_first());
        let e = encode(v);
        if escaped(v[0]) {
            assert(e[0] == '\\');
            assert(e.len() >= 2);
            assert(e[1] == esc_code(v[0]));
            assert(e.skip(2) =~= encode(v.drop_first()));
            assert(unesc(esc_code(v[0])) == v[0]);
            assert(decode(e) =~= v);
        } else {
            assert(e[0] == v[0]);
            assert(e[0] != '\\');
            assert(e.skip(1) =~= encode(v.drop_first()));
            assert(decode(e) =~= v);
        }
    }
}

/// Encoding distributes over concatenation.
pub proof fn lemma_encode_concat(a: Seq<char>, b: Seq<char>)
    ensures
        encode(a + b) == encode(a) + encode(b),
    decreases a.len(),
{
    if a.len() == 0 {
        assert(a + b =~= b);
        assert(encode(a) + encode(b) =~= encode(b));
    } else {
        assert((a + b).drop_first() =~= a.drop_first() + b);
        lemma_encode_concat(a.drop_first(), b);
        assert(encode(a + b) =~= encode(a) + encode(b));
    }
}

// ---------------------------------------------------------------------------
// Field lines
// ---------------------------------------------------------------------------

/// The four characters between a key and its opening quote: ` = "`.
pub open spec fn mid_str() -> Seq<char> {
    seq![' ', '=', ' ', '"']
}

/// The line that binds field `k` to value `v`.
pub open spec fn kv_line(k: Seq<char>, v: Seq<char>) -> Seq<char> {
    k + mid_str() + encode(v) + seq!['"']
}

/// Parse a line as a binding of field `k`: the line must be
/// `k = "e"` with `e` a well-formed encoding; the result is the decoded
/// value.
pub open spec fn parse_kv(l: Seq<char>, k: Seq<char>) -> Option<Seq<char>> {
    if l.len() >= k.len() + 5 && l.subrange(0, k.len() + 4int) == k + mid_str() && l[l.len() - 1]
        == '"' && valid_enc(l.subrange(k.len() + 4int, l.len() - 1)) {
        Some(decode(l.subrange(k.len() + 4int, l.len() - 1)))
    } else {
        None
    }
}

/// A field line is not a section header, contains no newline when the key
/// does not, and parses back to the value it was written from.
pub proof fn lemma_kv_line(k: Seq<char>, v: Seq<char>)
    ensures
        !is_header(kv_line(k, v)),
        no_newline(k) ==> no_newline(kv_line(k, v)),
        parse_kv(kv_line(k, v), k) == Some(v),
{
    let l = kv_line(k, v);
    lemma_encode_ok(v);
    assert(l.len() == k.len() + 4int + encode(v).len() + 1);
    assert(l[l.len() - 1] == '"');
    assert(!is_header(l));
    assert(l.subrange(0, k.len() + 4int) =~= k + mid_str());
    assert(l.subrange(k.len() + 4int, l.len() - 1) =~= encode(v));
    assert(parse_kv(l, k) == Some(decode(encode(v))));
}

/// A line written for key `k1` does not parse as a binding of a key `k2`
/// that differs from `k1` at some shared position.
pub proof fn lemma_kv_line_other_key(k1: Seq<char>, k2: Seq<char>, v: Seq<char>, p: int)
    requires
        0 <= p < k1.len(),
        p < k2.len(),
        k1[p] != k2[p],
    ensures
        parse_kv(kv_line(k1, v), k2) is None,
{
    let l = kv_line(k1, v);
    if parse_kv(l, k2) is Some {
        assert(l.subrange(0, k2.len() + 4int) == k2 + mid_str());
        assert(l.subrange(0, k2.len() + 4int)[p] == k2[p]);
        assert(l[p] == k2[p]);
        assert(l[p] == k1[p]);
        assert(false);
    }
}

// ---------------------------------------------------------------------------
// Sections
// ---------------------------------------------------------------------------

/// No line of the list is a section header.
pub open spec fn non_header_lines(ls: Seq<Seq<char>>) -> bool {
    forall|i: int| 0 <= i < ls.len() ==> !is_header(#[trigger] ls[i])
}

/// Every line of the list is free of newlines.
pub open spec fn nn_lines(ls: Seq<Seq<char>>) -> bool {
    forall|i: int| 0 <= i < ls.len() ==> no_newline(#[trigger] ls[i])
}

/// The lines before the next section header.
pub open spec fn body_prefix(ls: Seq<Seq<char>>) -> Seq<Seq<char>>
    decreases ls.len(),
{
    if ls.len() == 0 {
        Seq::<Seq<char>>::empty()
    } else if is_header(ls[0]) {
        Seq::<Seq<char>>::empty()
    } else {
        seq![ls[0]] + body_prefix(ls.drop_first())
    }
}

/// The lines from the next section header on.
pub open spec fn after_body(ls: Seq<Seq<char>>) -> Seq<Seq<char>>
    decreases ls.len(),
{
    if ls.len() == 0 {
        Seq::<Seq<char>>::empty()
    } else if is_header(ls[0]) {
        ls
    } else {
        after_body(ls.drop_first())
    }
}

/// The body of the first section named `name`: the lines between its header
/// and the next header, or `None` when no such section exists.
pub open spec fn section_body(ls: Seq<Seq<char>>, name: Seq<char>) -> Option<Seq<Seq<char>>>
    decreases ls.len(),
{
    if ls.len() == 0 {
        None
    } else if is_header(ls[0]) && header_name(ls[0]) == name {
        Some(body_prefix(ls.drop_first()))
    } else {
        section_body(ls.drop_first(), name)
    }
}

/// A line list splits into its body prefix and the rest; the prefix holds
/// no header, and the rest is empty or starts with one.
pub proof fn lemma_body_split(ls: Seq<Seq<char>>)
    ensures
        body_prefix(ls) + after_body(ls) == ls,
        non_header_lines(body_prefix(ls)),
        after_body(ls).len() == 0 || is_header(after_body(ls)[0]),
        nn_lines(ls) ==> nn_lines(body_prefix(ls)) && nn_lines(after_body(ls)),
    decreases ls.len(),
{
    if ls.len() == 0 {
        assert(body_prefix(ls) + after_body(ls) =~~= ls);
    } else if is_header(ls[0]) {
        assert(body_prefix(ls) + after_body(ls) =~~= ls);
    } else {
        lemma_body_split(ls.drop_first());
        assert(body_prefix(ls) + after_body(ls) =~~= seq![ls[0]] + (body_prefix(ls.drop_first())
            + after_body(ls.drop_first())));
        assert(seq![ls[0]] + ls.drop_first() =~~= ls);
        assert(body_prefix(ls) + after_body(ls) == ls);
        if nn_lines(ls) {
            assert(forall|i: int|
                0 <= i < ls.drop_first().len() ==> no_newline(#[trigger] ls.drop_first()[i]));
        }
    }
}

/// Lines that hold no header named `name` can be skipped when looking a
/// section of that name up.
pub proof fn lemma_section_body_skip(pre: Seq<Seq<char>>, ls: Seq<Seq<char>>, name: Seq<char>)
    requires
        forall|i: int|
            0 <= i < pre.len() ==> !(is_header(#[trigger] pre[i]) && header_name(pre[i]) == name),
    ensures
        section_body(pre + ls, name) == section_body(ls, name),
    decreases pre.len(),
{
    if pre.len() == 0 {
        assert(pre + ls =~~= ls);
    } else {
        let t = pre + ls;
        assert(t[0] == pre[0]);
        assert(t.drop_first() =~~= pre.drop_first() + ls);
        assert(forall|i: int|
            0 <= i < pre.drop_first().len() ==> !(is_header(#[trigger] pre.drop_first()[i])
                && header_name(pre.drop_first()[i]) == name));
        lemma_section_body_skip(pre.drop_first(), ls, name);
    }
}

/// The body prefix of `x ++ y` is `x` itself when `x` holds no header and
/// `y` is empty or starts with one.
pub proof fn lemma_body_prefix_concat(x: Seq<Seq<char>>, y: Seq<Seq<char>>)
    requires
        non_header_lines(x),
        y.len() == 0 || is_header(y[0]),
    ensures
        body_prefix(x + y) == x,
    decreases x.len(),
{
    if x.len() == 0 {
        assert(x + y =~~= y);
        assert(body_prefix(x + y) =~~= x);
    } else {
        let t = x + y;
        assert(t[0] == x[0]);
        assert(!is_header(t[0]));
        assert(t.drop_first() =~~= x.drop_first() + y);
        assert(forall|i: int|
            0 <= i < x.drop_first().len() ==> !is_header(#[trigger] x.drop_first()[i]));
        lemma_body_prefix_concat(x.drop_first(), y);
        assert(body_prefix(t) =~~= x);
    }
}

// ---------------------------------------------------------------------------
// Records: a section's field lines
// ---------------------------------------------------------------------------

/// The field lines of a record, one per key, in order.
pub open spec fn kv_lines(keys: Seq<Seq<char>>, values: Seq<Seq<char>>) -> Seq<Seq<char>>
    decreases keys.len(),
{
    if keys.len() == 0 || values.len() == 0 {
        Seq::<Seq<char>>::empty()
    } else {
        seq![kv_line(keys[0], values[0])] + kv_lines(keys.drop_first(), values.drop_first())
    }
}

/// Two keys differ at a position both of them have.
pub open spec fn diff_at(a: Seq<char>, b: Seq<char>) -> bool {
    exists|p: int| 0 <= p < a.len() && p < b.len() && a[p] != b[p]
}

/// A well-formed key list: keys are newline-free and pairwise differ at a
/// shared position, so no key's field line parses as another key's.
pub open spec fn keys_wf(keys: Seq<Seq<char>>) -> bool {
    &&& forall|i: int| 0 <= i < keys.len() ==> no_newline(#[trigger] keys[i])
    &&& forall|i: int, j: int|
        0 <= i < keys.len() && 0 <= j < keys.len() && i != j ==> diff_at(
            #[trigger] keys[i],
            #[trigger] keys[j],
        )
}

/// The line binds one of the given keys.
pub open spec fn parses_any(l: Seq<char>, keys: Seq<Seq<char>>) -> bool {
    exists|i: int| 0 <= i < keys.len() && parse_kv(l, #[trigger] keys[i]) is Some
}

/// The lines of a section body that bind none of the given keys, in order.
pub open spec fn keep_unknown(body: Seq<Seq<char>>, keys: Seq<Seq<char>>) -> Seq<Seq<char>>
    decreases body.len(),
{
    if body.len() == 0 {
        Seq::<Seq<char>>::empty()
    } else if parses_any(body[0], keys) {
        keep_unknown(body.drop_first(), keys)
    } else {
        seq![body[0]] + keep_unknown(body.drop_first(), keys)
    }
}

/// The value of field `k` in a section body: the first line binding `k`,
/// decoded, or the empty value when no line binds it.
pub open spec fn field_of(body: Seq<Seq<char>>, k: Seq<char>) -> Seq<char>
    decreases body.len(),
{
    if body.len() == 0 {
        Seq::<char>::empty()
    } else {
        match parse_kv(body[0], k) {
            Some(v) => v,
            None => field_of(body.drop_first(), k),
        }
    }
}

/// Field lines are not headers and, for newline-free keys, newline-free.
pub proof fn lemma_kv_lines_wf(keys: Seq<Seq<char>>, values: Seq<Seq<char>>)
    ensures
        non_header_lines(kv_lines(keys, values)),
        keys_wf(keys) ==> nn_lines(kv_lines(keys, values)),
        values.len() == keys.len() ==> kv_lines(keys, values).len() == keys.len(),
    decreases keys.len(),
{
    if keys.len() == 0 || values.len() == 0 {
    } else {
        lemma_kv_line(keys[0], values[0]);
        lemma_kv_lines_wf(keys.drop_first(), values.drop_first());
        let out = kv_lines(keys, values);
        let rest = kv_lines(keys.drop_first(), values.drop_first());
        assert forall|i: int| 0 <= i < out.len() implies !is_header(#[trigger] out[i]) by {
            if i > 0 {
                assert(out[i] == rest[i - 1]);
            }
        }
        if keys_wf(keys) {
            assert(forall|i: int|
                0 <= i < keys.drop_first().len() ==> no_newline(#[trigger] keys.drop_first()[i]));
            assert forall|i: int, j: int|
                0 <= i < keys.drop_first().len() && 0 <= j < keys.drop_first().len() && i != j
                implies diff_at(
                #[trigger] keys.drop_first()[i],
                #[trigger] keys.drop_first()[j],
            ) by {
                assert(keys.drop_first()[i] == keys[i + 1]);
                assert(keys.drop_first()[j] == keys[j + 1]);
            }
            assert forall|i: int| 0 <= i < out.len() implies no_newline(#[trigger] out[i]) by {
                if i == 0 {
                    assert(no_newline(keys[0]));
                    assert(no_newline(kv_line(keys[0], values[0])));
                } else {
                    assert(out[i] == rest[i - 1]);
                }
            }
        }
    }
}

/// In a body that starts with the record's own field lines, each key's
/// field reads back as exactly the value it was written with.
pub proof fn lemma_field_of_kvs(
    keys: Seq<Seq<char>>,
    values: Seq<Seq<char>>,
    j: int,
    rest: Seq<Seq<char>>,
)
    requires
        keys.len() == values.len(),
        keys_wf(keys),
        0 <= j < keys.len(),
    ensures
        field_of(kv_lines(keys, values) + rest, keys[j]) == values[j],
    decreases j,
{
    let body = kv_lines(keys, values) + rest;
    lemma_kv_line(keys[0], values[0]);
    assert(body[0] == kv_line(keys[0], values[0]));
    if j == 0 {
        assert(parse_kv(body[0], keys[0]) == Some(values[0]));
    } else {
        assert(diff_at(keys[0], keys[j]));
        let p = choose|p: int| 0 <= p < keys[0].len() && p < keys[j].len() && keys[0][p]
            != keys[j][p];
        lemma_kv_line_other_key(keys[0], keys[j], values[0], p);
        assert(parse_kv(body[0], keys[j]) is None);
        assert(forall|i: int|
            0 <= i < keys.drop_first().len() ==> no_newline(#[trigger] keys.drop_first()[i]));
        assert forall|i: int, j2: int|
            0 <= i < keys.drop_first().len() && 0 <= j2 < keys.drop_first().len() && i != j2
            implies diff_at(#[trigger] keys.drop_first()[i], #[trigger] keys.drop_first()[j2]) by {
            assert(keys.drop_first()[i] == keys[i + 1]);
            assert(keys.drop_first()[j2] == keys[j2 + 1]);
        }
        lemma_field_of_kvs(keys.drop_first(), values.drop_first(), j - 1, rest);
        assert(body.drop_first() =~~= kv_lines(keys.drop_first(), values.drop_first()) + rest);
        assert(keys.drop_first()[j - 1] == keys[j]);
        assert(values.drop_first()[j - 1] == values[j]);
    }
}

/// Kept lines of a body stay non-headers and newline-free.
pub proof fn lemma_keep_unknown_wf(body: Seq<Seq<char>>, keys: Seq<Seq<char>>)
    requires
        non_header_lines(body),
    ensures
        non_header_lines(keep_unknown(body, keys)),
        nn_lines(body) ==> nn_lines(keep_unknown(body, keys)),
    decreases body.len(),
{
    if body.len() == 0 {
    } else {
        assert(forall|i: int|
            0 <= i < body.drop_first().len() ==> !is_header(#[trigger] body.drop_first()[i]));
        if nn_lines(body) {
            assert(forall|i: int|
                0 <= i < body.drop_first().len() ==> no_newline(#[trigger] body.drop_first()[i]));
        }
        lemma_keep_unknown_wf(body.drop_first(), keys);
        let out = keep_unknown(body, keys);
        let rest = keep_unknown(body.drop_first(), keys);
        if !parses_any(body[0], keys) {
            assert forall|i: int| 0 <= i < out.len() implies !is_header(#[trigger] out[i]) by {
                if i > 0 {
                    assert(out[i] == rest[i - 1]);
                }
            }
            if nn_lines(body) {
                assert forall|i: int| 0 <= i < out.len() implies no_newline(#[trigger] out[i]) by {
                    if i == 0 {
                        assert(no_newline(body[0]));
                    } else {
                        assert(out[i] == rest[i - 1]);
                    }
                }
            }
        }
    }
}

// ---------------------------------------------------------------------------
// Upsert: replace or append one section's record
// ---------------------------------------------------------------------------

/// Replace the record of the first section named `id`: its field lines are
/// rewritten from `keys`/`values`, lines of its body binding none of the
/// keys stay, and every line outside that section stays verbatim. When no
/// section named `id` exists, one is appended at the end.
pub open spec fn upsert(
    ls: Seq<Seq<char>>,
    id: Seq<char>,
    keys: Seq<Seq<char>>,
    values: Seq<Seq<char>>,
) -> Seq<Seq<char>>
    decreases ls.len(),
{
    if ls.len() == 0 {
        seq![header_line(id)] + kv_lines(keys, values)
    } else if is_header(ls[0]) && header_name(ls[0]) == id {
        seq![ls[0]] + kv_lines(keys, values) + keep_unknown(body_prefix(ls.drop_first()), keys)
            + after_body(ls.drop_first())
    } else {
        seq![ls[0]] + upsert(ls.drop_first(), id, keys, values)
    }
}

/// The document text written by a persist: the current record upserted
/// into the lines of the existing text (an empty text counts as having no
/// lines at all).
pub open spec fn persist_doc(
    t: Seq<char>,
    id: Seq<char>,
    keys: Seq<Seq<char>>,
    values: Seq<Seq<char>>,
) -> Seq<char> {
    if t.len() == 0 {
        unlines(upsert(Seq::<Seq<char>>::empty(), id, keys, values))
    } else {
        unlines(upsert(lines_of(t), id, keys, values))
    }
}

/// The record read from a document text: `None` when no section named `id`
/// exists, else one value per key (a key no line binds reads as empty).
pub open spec fn load_doc(t: Seq<char>, id: Seq<char>, keys: Seq<Seq<char>>) -> Option<
    Seq<Seq<char>>,
> {
    match section_body(lines_of(t), id) {
        Some(body) => Some(Seq::new(keys.len(), |j: int| field_of(body, keys[j]))),
        None => None,
    }
}

/// Upserted lines are nonempty and stay newline-free.
pub proof fn lemma_upsert_wf(
    ls: Seq<Seq<char>>,
    id: Seq<char>,
    keys: Seq<Seq<char>>,
    values: Seq<Seq<char>>,
)
    requires
        nn_lines(ls),
        no_newline(id),
        keys_wf(keys),
    ensures
        upsert(ls, id, keys, values).len() >= 1,
        nn_lines(upsert(ls, id, keys, values)),
    decreases ls.len(),
{
    lemma_kv_lines_wf(keys, values);
    let kvs = kv_lines(keys, values);
    if ls.len() == 0 {
        let out = upsert(ls, id, keys, values);
        assert(no_newline(header_line(id)));
        assert forall|i: int| 0 <= i < out.len() implies no_newline(#[trigger] out[i]) by {
            if i > 0 {
                assert(out[i] == kvs[i - 1]);
            }
        }
    } else if is_header(ls[0]) && header_name(ls[0]) == id {
        let rest = ls.drop_first();
        assert(forall|i: int| 0 <= i < rest.len() ==> no_newline(#[trigger] rest[i]));
        lemma_body_split(rest);
        lemma_keep_unknown_wf(body_prefix(rest), keys);
        let keep = keep_unknown(body_prefix(rest), keys);
        let after = after_body(rest);
        let out = upsert(ls, id, keys, values);
        assert(out =~~= seq![ls[0]] + kvs + keep + after);
        assert forall|i: int| 0 <= i < out.len() implies no_newline(#[trigger] out[i]) by {
            if i == 0 {
                assert(no_newline(ls[0]));
            } else if i < 1 + kvs.len() {
                assert(out[i] == kvs[i - 1]);
            } else if i < 1 + kvs.len() + keep.len() {
                assert(out[i] == keep[i - 1 - kvs.len()]);
            } else {
                assert(out[i] == after[i - 1 - kvs.len() - keep.len()]);
            }
        }
    } else {
        let rest = ls.drop_first();
        assert(forall|i: int| 0 <= i < rest.len() ==> no_newline(#[trigger] rest[i]));
        lemma_upsert_wf(rest, id, keys, values);
        let out = upsert(ls, id, keys, values);
        let sub = upsert(rest, id, keys, values);
        assert forall|i: int| 0 <= i < out.len() implies no_newline(#[trigger] out[i]) by {
            if i == 0 {
                assert(no_newline(ls[0]));
            } else {
                assert(out[i] == sub[i - 1]);
            }
        }
    }
}

/// The body of the first section named `id`, or no lines when no such
/// section exists.
pub open spec fn own_section_body(ls: Seq<Seq<char>>, id: Seq<char>) -> Seq<Seq<char>> {
    match section_body(ls, id) {
        Some(b) => b,
        None => Seq::<Seq<char>>::empty(),
    }
}

/// After an upsert, the section named `id` exists, and its body is the
/// record's field lines followed by exactly those lines of its previous
/// body that bound none of the record's keys: unknown fields of the
/// section round-trip unchanged.
pub proof fn lemma_upsert_section(
    ls: Seq<Seq<char>>,
    id: Seq<char>,
    keys: Seq<Seq<char>>,
    values: Seq<Seq<char>>,
)
    ensures
        section_body(upsert(ls, id, keys, values), id) == Some(
            kv_lines(keys, values) + keep_unknown(own_section_body(ls, id), keys),
        ),
    decreases ls.len(),
{
    let kvs = kv_lines(keys, values);
    lemma_kv_lines_wf(keys, values);
    if ls.len() == 0 {
        let out = upsert(ls, id, keys, values);
        lemma_header_line(id);
        assert(out[0] == header_line(id));
        assert(out.drop_first() =~~= kvs);
        lemma_body_prefix_concat(kvs, Seq::<Seq<char>>::empty());
        assert(kvs + Seq::<Seq<char>>::empty() =~~= kvs);
        assert(body_prefix(kvs) == kvs);
        assert(section_body(out, id) == Some(kvs));
        assert(own_section_body(ls, id) =~~= Seq::<Seq<char>>::empty());
        assert(keep_unknown(own_section_body(ls, id), keys) =~~= Seq::<Seq<char>>::empty());
        assert(kvs + keep_unknown(own_section_body(ls, id), keys) =~~= kvs);
    } else if is_header(ls[0]) && header_name(ls[0]) == id {
        let rest = ls.drop_first();
        lemma_body_split(rest);
        lemma_keep_unknown_wf(body_prefix(rest), keys);
        let keep = keep_unknown(body_prefix(rest), keys);
        let after = after_body(rest);
        let out = upsert(ls, id, keys, values);
        assert(out[0] == ls[0]);
        assert(out.drop_first() =~~= (kvs + keep) + after);
        assert forall|i: int| 0 <= i < (kvs + keep).len() implies !is_header(
            #[trigger] (kvs + keep)[i],
        ) by {
            if i < kvs.len() {
                assert((kvs + keep)[i] == kvs[i]);
            } else {
                assert((kvs + keep)[i] == keep[i - kvs.len()]);
            }
        }
        lemma_body_prefix_concat(kvs + keep, after);
        assert(section_body(out, id) == Some(kvs + keep));
        assert(own_section_body(ls, id) == body_prefix(rest));
    } else {
        let rest = ls.drop_first();
        lemma_upsert_section(rest, id, keys, values);
        let out = upsert(ls, id, keys, values);
        assert(out[0] == ls[0]);
        assert(out.drop_first() =~~= upsert(rest, id, keys, values));
        assert(section_body(out, id) == section_body(upsert(rest, id, keys, values), id));
        assert(own_section_body(ls, id) == own_section_body(rest, id));
    }
}

/// An upsert leaves the body prefix ahead of the first header unchanged.
pub proof fn lemma_body_prefix_upsert(
    ls: Seq<Seq<char>>,
    id: Seq<char>,
    keys: Seq<Seq<char>>,
    values: Seq<Seq<char>>,
)
    ensures
        body_prefix(upsert(ls, id, keys, values)) == body_prefix(ls),
    decreases ls.len(),
{
    let out = upsert(ls, id, keys, values);
    if ls.len() == 0 {
        lemma_header_line(id);
        assert(is_header(out[0]));
        assert(body_prefix(out) =~~= body_prefix(ls));
    } else if is_header(ls[0]) {
        assert(out[0] == ls[0]);
        assert(body_prefix(out) =~~= Seq::<Seq<char>>::empty());
        assert(body_prefix(ls) =~~= Seq::<Seq<char>>::empty());
    } else {
        lemma_body_prefix_upsert(ls.drop_first(), id, keys, values);
        assert(out[0] == ls[0]);
        assert(out.drop_first() =~~= upsert(ls.drop_first(), id, keys, values));
        assert(body_prefix(out) =~~= body_prefix(ls));
    }
}

/// An upsert of section `id` leaves every other section's body unchanged.
pub proof fn lemma_upsert_other(
    ls: Seq<Seq<char>>,
    id: Seq<char>,
    keys: Seq<Seq<char>>,
    values: Seq<Seq<char>>,
    s: Seq<char>,
)
    requires
        s != id,
    ensures
        section_body(upsert(ls, id, keys, values), s) == section_body(ls, s),
    decreases ls.len(),
{
    let kvs = kv_lines(keys, values);
    lemma_kv_lines_wf(keys, values);
    let out = upsert(ls, id, keys, values);
    if ls.len() == 0 {
        lemma_header_line(id);
        assert(out.drop_first() =~~= kvs);
        lemma_section_body_skip(kvs, Seq::<Seq<char>>::empty(), s);
        assert(kvs + Seq::<Seq<char>>::empty() =~~= kvs);
        assert(section_body(out, s) == section_body(Seq::<Seq<char>>::empty(), s));
    } else if is_header(ls[0]) && header_name(ls[0]) == id {
        let rest = ls.drop_first();
        lemma_body_split(rest);
        lemma_keep_unknown_wf(body_prefix(rest), keys);
        let keep = keep_unknown(body_prefix(rest), keys);
        let after = after_body(rest);
        assert(out[0] == ls[0]);
        assert(out.drop_first() =~~= (kvs + keep) + after);
        assert forall|i: int| 0 <= i < (kvs + keep).len() implies !(is_header(
            #[trigger] (kvs + keep)[i],
        ) && header_name((kvs + keep)[i]) == s) by {
            if i < kvs.len() {
                assert((kvs + keep)[i] == kvs[i]);
                assert(!is_header(kvs[i]));
            } else {
                assert((kvs + keep)[i] == keep[i - kvs.len()]);
                assert(!is_header(keep[i - kvs.len()]));
            }
        }
        lemma_section_body_skip(kvs + keep, after, s);
        assert(section_body(out, s) == section_body(after, s));
        assert(forall|i: int|
            0 <= i < body_prefix(rest).len() ==> !(is_header(#[trigger] body_prefix(rest)[i])
                && header_name(body_prefix(rest)[i]) == s));
        lemma_section_body_skip(body_prefix(rest), after, s);
        assert(body_prefix(rest) + after =~~= rest);
        assert(section_body(rest, s) == section_body(after, s));
        assert(section_body(ls, s) == section_body(rest, s));
    } else {
        let rest = ls.drop_first();
        lemma_upsert_other(rest, id, keys, values, s);
        assert(out[0] == ls[0]);
        assert(out.drop_first() =~~= upsert(rest, id, keys, values));
        if is_header(ls[0]) && header_name(ls[0]) == s {
            lemma_body_prefix_upsert(rest, id, keys, values);
            assert(section_body(out, s) == Some(body_prefix(upsert(rest, id, keys, values))));
            assert(section_body(ls, s) == Some(body_prefix(rest)));
        } else {
            assert(section_body(out, s) == section_body(upsert(rest, id, keys, values), s));
            assert(section_body(ls, s) == section_body(rest, s));
        }
    }
}

// ---------------------------------------------------------------------------
// The document laws
// ---------------------------------------------------------------------------

/// Round trip: loading a section right after persisting it yields exactly
/// the record that was persisted, whatever the document held before.
pub proof fn lemma_persist_then_load(
    t: Seq<char>,
    id: Seq<char>,
    keys: Seq<Seq<char>>,
    values: Seq<Seq<char>>,
)
    requires
        no_newline(id),
        keys_wf(keys),
        keys.len() == values.len(),
    ensures
        load_doc(persist_doc(t, id, keys, values), id, keys) == Some(values),
{
    let ls: Seq<Seq<char>> = if t.len() == 0 {
        Seq::<Seq<char>>::empty()
    } else {
        lines_of(t)
    };
    if t.len() != 0 {
        lemma_lines_of_no_newline(t);
    }
    let out = upsert(ls, id, keys, values);
    lemma_upsert_wf(ls, id, keys, values);
    lemma_lines_of_unlines(out);
    assert(lines_of(persist_doc(t, id, keys, values)) == out);
    lemma_upsert_section(ls, id, keys, values);
    let k = keep_unknown(own_section_body(ls, id), keys);
    let body = kv_lines(keys, values) + k;
    assert(section_body(out, id) == Some(body));
    let loaded = Seq::new(keys.len(), |j: int| field_of(body, keys[j]));
    assert forall|j: int| 0 <= j < keys.len() implies loaded[j] == values[j] by {
        lemma_field_of_kvs(keys, values, j, k);
    }
    assert(loaded =~~= values);
}

/// Non-interference: persisting section `id` leaves the body of every
/// other section exactly as it was.
pub proof fn lemma_persist_preserves_others(
    t: Seq<char>,
    id: Seq<char>,
    keys: Seq<Seq<char>>,
    values: Seq<Seq<char>>,
    s: Seq<char>,
)
    requires
        no_newline(id),
        keys_wf(keys),
        s != id,
    ensures
        section_body(lines_of(persist_doc(t, id, keys, values)), s) == section_body(
            lines_of(t),
            s,
        ),
{
    let ls: Seq<Seq<char>> = if t.len() == 0 {
        Seq::<Seq<char>>::empty()
    } else {
        lines_of(t)
    };
    if t.len() != 0 {
        lemma_lines_of_no_newline(t);
    }
    let out = upsert(ls, id, keys, values);
    lemma_upsert_wf(ls, id, keys, values);
    lemma_lines_of_unlines(out);
    assert(lines_of(persist_doc(t, id, keys, values)) == out);
    lemma_upsert_other(ls, id, keys, values, s);
    if t.len() == 0 {
        assert(lines_of(t) =~~= seq![Seq::<char>::empty()]);
        assert(!is_header(Seq::<char>::empty()));
        assert(section_body(lines_of(t), s) == section_body(
            seq![Seq::<char>::empty()].drop_first(),
            s,
        ));
        assert(seq![Seq::<char>::empty()].drop_first() =~~= Seq::<Seq<char>>::empty());
        assert(section_body(lines_of(t), s) == section_body(ls, s));
    }
}

// ---------------------------------------------------------------------------
// Executable primitives
// ---------------------------------------------------------------------------

/// Copy a line.
pub fn clone_chars(v: &Vec<char>) -> (r: Vec<char>)
    ensures
        r@ == v@,
{
    let mut r: Vec<char> = Vec::new();
    let mut i: usize = 0;
    while i < v.len()
        invariant
            i <= v@.len(),
            r@ == v@.subrange(0, i as int),
        decreases v@.len() - i,
    {
        r.push(v[i]);
        proof {
            assert(r@ =~= v@.subrange(0, i + 1int));
        }
        i = i + 1;
    }
    proof {
        assert(r@ =~= v@);
    }
    r
}

/// Split text into its lines.
pub fn split_lines(t: &Vec<char>) -> (r: Vec<Vec<char>>)
    ensures
        r.deep_view() == lines_of(t@),
{
    let mut done: Vec<Vec<char>> = Vec::new();
    let mut cur: Vec<char> = Vec::new();
    let mut i: usize = 0;
    proof {
        lemma_lines_of_nonempty(t@);
        assert(t@.skip(0) =~= t@);
    }
    while i < t.len()
        invariant
            i <= t@.len(),
            lines_of(t@.skip(i as int)).len() >= 1,
            done.deep_view() + seq![cur@ + lines_of(t@.skip(i as int))[0]] + lines_of(
                t@.skip(i as int),
            ).drop_first() == lines_of(t@),
        decreases t@.len() - i,
    {
        let ghost pre = t@.skip(i as int);
        proof {
            assert(pre[0] == t@[i as int]);
            assert(pre.drop_first() =~= t@.skip(i + 1int));
            lemma_lines_of_nonempty(t@.skip(i + 1int));
        }
        if t[i] == '\n' {
            done.push(cur);
            cur = Vec::new();
            proof {
                let post = t@.skip(i + 1int);
                assert(lines_of(pre) == seq![Seq::<char>::empty()] + lines_of(post));
                assert(lines_of(pre)[0] == Seq::<char>::empty());
                assert(lines_of(pre).drop_first() =~~= lines_of(post));
                assert(done.deep_view() + seq![cur@ + lines_of(post)[0]] + lines_of(
                    post,
                ).drop_first() =~~= lines_of(t@));
            }
        } else {
            cur.push(t[i]);
            proof {
                let post = t@.skip(i + 1int);
                let rest = lines_of(post);
                assert(lines_of(pre) == seq![seq![pre[0]] + rest[0]] + rest.drop_first());
                assert(lines_of(pre)[0] == seq![pre[0]] + rest[0]);
                assert(lines_of(pre).drop_first() =~~= rest.drop_first());
                assert(done.deep_view() + seq![cur@ + rest[0]] + rest.drop_first() =~~= lines_of(
                    t@,
                ));
            }
        }
        i = i + 1;
    }
    proof {
        let post = t@.skip(i as int);
        assert(post =~= Seq::<char>::empty());
        assert(lines_of(post) == seq![Seq::<char>::empty()]);
        assert(cur@ + lines_of(post)[0] =~= cur@);
        assert(lines_of(post).drop_first() =~~= Seq::<Seq<char>>::empty());
        assert(done.deep_view() + seq![cur@] =~~= lines_of(t@));
    }
    done.push(cur);
    proof {
        assert(done.deep_view() =~~= lines_of(t@));
    }
    done
}

/// Join lines with newline separators.
pub fn join_lines(ls: &Vec<Vec<char>>) -> (r: Vec<char>)
    ensures
        r@ == unlines(ls.deep_view()),
{
    let n = ls.len();
    if n == 0 {
        let r: Vec<char> = Vec::new();
        proof {
            assert(r@ =~= unlines(ls.deep_view()));
        }
        return r;
    }
    let mut acc: Vec<char> = clone_chars(&ls[n - 1]);
    proof {
        assert(ls.deep_view().skip(n - 1int) =~~= seq![ls.deep_view()[n - 1int]]);
        assert(unlines(ls.deep_view().skip(n - 1int)) == ls.deep_view()[n - 1int]);
    }
    let mut i: usize = n - 1;
    while i > 0
        invariant
            i < n,
            n == ls@.len(),
            acc@ == unlines(ls.deep_view().skip(i as int)),
        decreases i,
    {
        let j = i - 1;
        let mut line = clone_chars(&ls[j]);
        line.push('\n');
        line.append(&mut acc);
        acc = line;
        proof {
            let dv = ls.deep_view();
            assert(dv.skip(j as int)[0] == dv[j as int]);
            assert(dv.skip(j as int).drop_first() =~~= dv.skip(i as int));
            assert(dv.skip(j as int).len() >= 2);
            assert(unlines(dv.skip(j as int)) == dv[j as int] + seq!['\n'] + unlines(
                dv.skip(i as int),
            ));
            assert(acc@ =~= unlines(dv.skip(j as int)));
        }
        i = j;
    }
    proof {
        assert(ls.deep_view().skip(0) =~~= ls.deep_view());
    }
    acc
}

/// Build the header line of a section name.
pub fn header_line_exec(id: &Vec<char>) -> (r: Vec<char>)
    ensures
        r@ == header_line(id@),
{
    let mut r: Vec<char> = Vec::new();
    r.push('[');
    let mut i: usize = 0;
    while i < id.len()
        invariant
            i <= id@.len(),
            r@ == seq!['['] + id@.subrange(0, i as int),
        decreases id@.len() - i,
    {
        r.push(id[i]);
        proof {
            assert(r@ =~= seq!['['] + id@.subrange(0, i + 1int));
        }
        i = i + 1;
    }
    r.push(']');
    proof {
        assert(id@.subrange(0, id@.len() as int) =~= id@);
        assert(r@ =~= header_line(id@));
    }
    r
}

/// Decide whether a line is the header of the section named `id`.
pub fn is_named_header(l: &Vec<char>, id: &Vec<char>) -> (r: bool)
    ensures
        r == (is_header(l@) && header_name(l@) == id@),
{
    let n = l.len();
    if n < 2 || l[0] != '[' || l[n - 1] != ']' {
        return false;
    }
    if n - 2 != id.len() {
        proof {
            assert(header_name(l@).len() == n - 2);
            assert(header_name(l@) != id@);
        }
        return false;
    }
    let mut i: usize = 0;
    while i < id.len()
        invariant
            n == l@.len(),
            n - 2 == id@.len(),
            n >= 2,
            i <= id@.len(),
            forall|j: int| 0 <= j < i ==> l@[j + 1] == id@[j],
        decreases id@.len() - i,
    {
        if l[i + 1] != id[i] {
            proof {
                assert(header_name(l@)[i as int] == l@[i + 1int]);
                assert(header_name(l@) != id@);
            }
            return false;
        }
        i = i + 1;
    }
    proof {
        assert(header_name(l@) =~= id@);
    }
    true
}

/// Build the field line binding key `k` to value `v`.
pub fn kv_line_exec(k: &Vec<char>, v: &Vec<char>) -> (r: Vec<char>)
    ensures
        r@ == kv_line(k@, v@),
{
    let mut r = clone_chars(k);
    r.push(' ');
    r.push('=');
    r.push(' ');
    r.push('"');
    proof {
        assert(r@ =~= k@ + mid_str());
        assert(v@.subrange(0, 0) =~= Seq::<char>::empty());
    }
    let mut i: usize = 0;
    while i < v.len()
        invariant
            i <= v@.len(),
            r@ == k@ + mid_str() + encode(v@.subrange(0, i as int)),
        decreases v@.len() - i,
    {
        let c = v[i];
        if c == '"' || c == '\\' || c == '\n' || c == '\r' {
            r.push('\\');
            if c == '"' {
                r.push('"');
            } else if c == '\\' {
                r.push('\\');
            } else if c == '\n' {
                r.push('n');
            } else {
                r.push('r');
            }
            proof {
                assert(encode(Seq::<char>::empty()) =~= Seq::<char>::empty());
                assert(seq![c].drop_first() =~= Seq::<char>::empty());
                assert(encode(seq![c]) =~= seq!['\\', esc_code(c)]);
            }
        } else {
            r.push(c);
            proof {
                assert(encode(Seq::<char>::empty()) =~= Seq::<char>::empty());
                assert(seq![c].drop_first() =~= Seq::<char>::empty());
                assert(encode(seq![c]) =~= seq![c]);
            }
        }
        proof {
            lemma_encode_concat(v@.subrange(0, i as int), seq![c]);
            assert(v@.subrange(0, i + 1int) =~= v@.subrange(0, i as int) + seq![c]);
            assert(r@ =~= k@ + mid_str() + encode(v@.subrange(0, i + 1int)));
        }
        i = i + 1;
    }
    r.push('"');
    proof {
        assert(v@.subrange(0, v@.len() as int) =~= v@);
        assert(r@ =~= kv_line(k@, v@));
    }
    r
}

/// Decode the characters of `l` between `start` and `end` as an escaped
/// value, or report that they are not a well-formed encoding.
fn decode_range(l: &Vec<char>, start: usize, end: usize) -> (r: Option<Vec<char>>)
    requires
        start <= end <= l@.len(),
    ensures
        valid_enc(l@.subrange(start as int, end as int)) ==> (r matches Some(v) && v@ == decode(
            l@.subrange(start as int, end as int),
        )),
        !valid_enc(l@.subrange(start as int, end as int)) ==> r is None,
    decreases end - start,
{
    let ghost sub = l@.subrange(start as int, end as int);
    if start == end {
        proof {
            assert(sub =~= Seq::<char>::empty());
            assert(decode(sub) =~= Seq::<char>::empty());
        }
        return Some(Vec::new());
    }
    proof {
        assert(sub[0] == l@[start as int]);
    }
    let c = l[start];
    if c == '\\' {
        if start + 1 >= end {
            return None;
        }
        proof {
            assert(sub[1] == l@[start + 1int]);
            assert(sub.skip(2) =~= l@.subrange(start + 2int, end as int));
        }
        let d = l[start + 1];
        if d == 'n' || d == 'r' || d == '"' || d == '\\' {
            let rest = decode_range(l, start + 2, end);
            match rest {
                Some(mut tail) => {
                    let u = if d == 'n' {
                        '\n'
                    } else if d == 'r' {
                        '\r'
                    } else {
                        d
                    };
                    proof {
                        assert(u == unesc(d));
                    }
                    let mut out: Vec<char> = Vec::new();
                    out.push(u);
                    out.append(&mut tail);
                    proof {
                        if valid_enc(sub) {
                            assert(decode(sub) == seq![unesc(sub[1])] + decode(sub.skip(2)));
                            assert(out@ =~= decode(sub));
                        }
                    }
                    Some(out)
                },
                None => {
                    proof {
                        assert(!valid_enc(sub));
                    }
                    None
                },
            }
        } else {
            proof {
                assert(!valid_enc(sub));
            }
            None
        }
    } else if c == '"' || c == '\n' || c == '\r' {
        proof {
            assert(!valid_enc(sub));
        }
        None
    } else {
        proof {
            assert(sub.skip(1) =~= l@.subrange(start + 1int, end as int));
        }
        let rest = decode_range(l, start + 1, end);
        match rest {
            Some(mut tail) => {
                let mut out: Vec<char> = Vec::new();
                out.push(c);
                out.append(&mut tail);
                proof {
                    if valid_enc(sub) {
                        assert(decode(sub) == seq![sub[0]] + decode(sub.skip(1)));
                        assert(out@ =~= decode(sub));
                    }
                }
                Some(out)
            },
            None => {
                proof {
                    assert(!valid_enc(sub));
                }
                None
            },
        }
    }
}

/// Parse a line as a binding of key `k`, yielding the decoded value.
pub fn parse_kv_exec(l: &Vec<char>, k: &Vec<char>) -> (r: Option<Vec<char>>)
    ensures
        r matches Some(v) ==> parse_kv(l@, k@) == Some(v@),
        r is None ==> parse_kv(l@, k@) is None,
{
    let n = l.len();
    let kl = k.len();
    if n < 5 || n - 5 < kl {
        return None;
    }
    let ghost pre = l@.subrange(0, kl + 4int);
    let mut i: usize = 0;
    while i < kl
        invariant
            n == l@.len(),
            kl == k@.len(),
            n >= kl + 5,
            i <= kl,
            pre == l@.subrange(0, kl + 4int),
            forall|j: int| 0 <= j < i ==> l@[j] == k@[j],
        decreases kl - i,
    {
        if l[i] != k[i] {
            proof {
                assert(pre[i as int] == l@[i as int]);
                assert((k@ + mid_str())[i as int] == k@[i as int]);
                assert(pre != k@ + mid_str());
            }
            return None;
        }
        i = i + 1;
    }
    if l[kl] != ' ' || l[kl + 1] != '=' || l[kl + 2] != ' ' || l[kl + 3] != '"' {
        proof {
            assert(pre[kl as int] == l@[kl as int]);
            assert(pre[kl + 1int] == l@[kl + 1int]);
            assert(pre[kl + 2int] == l@[kl + 2int]);
            assert(pre[kl + 3int] == l@[kl + 3int]);
            assert((k@ + mid_str())[kl as int] == ' ');
            assert((k@ + mid_str())[kl + 1int] == '=');
            assert((k@ + mid_str())[kl + 2int] == ' ');
            assert((k@ + mid_str())[kl + 3int] == '"');
            assert(pre != k@ + mid_str());
        }
        return None;
    }
    proof {
        assert forall|j: int| 0 <= j < pre.len() implies pre[j] == (k@ + mid_str())[j] by {
            assert(pre[j] == l@[j]);
        }
        assert(pre =~= k@ + mid_str());
    }
    if l[n - 1] != '"' {
        return None;
    }
    let dec = decode_range(l, kl + 4, n - 1);
    match dec {
        Some(v) => Some(v),
        None => None,
    }
}

// ---------------------------------------------------------------------------
// Bridges between the recursive specs and index-based iteration
// ---------------------------------------------------------------------------

/// Appending one pair extends the field lines by one line.
pub proof fn lemma_kv_lines_push(a: Seq<Seq<char>>, b: Seq<Seq<char>>, x: Seq<char>, y: Seq<char>)
    requires
        a.len() == b.len(),
    ensures
        kv_lines(a.push(x), b.push(y)) == kv_lines(a, b).push(kv_line(x, y)),
    decreases a.len(),
{
    if a.len() == 0 {
        assert(a.push(x)[0] == x);
        assert(b.push(y)[0] == y);
        assert(a.push(x).drop_first() =~~= Seq::<Seq<char>>::empty());
        assert(b.push(y).drop_first() =~~= Seq::<Seq<char>>::empty());
        assert(kv_lines(a.push(x).drop_first(), b.push(y).drop_first())
            =~~= Seq::<Seq<char>>::empty());
        assert(kv_lines(a.push(x), b.push(y)) =~~= seq![kv_line(x, y)]);
        assert(kv_lines(a, b) =~~= Seq::<Seq<char>>::empty());
        assert(kv_lines(a.push(x), b.push(y)) =~~= kv_lines(a, b).push(kv_line(x, y)));
    } else {
        assert(a.push(x)[0] == a[0]);
        assert(b.push(y)[0] == b[0]);
        assert(a.push(x).drop_first() =~~= a.drop_first().push(x));
        assert(b.push(y).drop_first() =~~= b.drop_first().push(y));
        lemma_kv_lines_push(a.drop_first(), b.drop_first(), x, y);
        assert(kv_lines(a.push(x), b.push(y)) =~~= kv_lines(a, b).push(kv_line(x, y)));
    }
}

/// Where the first header named `id` stands at index `h`, an upsert keeps
/// the prefix through that header, writes the field lines, keeps the
/// body's unknown lines, and keeps the rest verbatim.
pub proof fn lemma_upsert_found(
    ls: Seq<Seq<char>>,
    h: int,
    id: Seq<char>,
    keys: Seq<Seq<char>>,
    values: Seq<Seq<char>>,
)
    requires
        0 <= h < ls.len(),
        is_header(ls[h]),
        header_name(ls[h]) == id,
        forall|j: int| 0 <= j < h ==> !(is_header(#[trigger] ls[j]) && header_name(ls[j]) == id),
    ensures
        upsert(ls, id, keys, values) == ls.take(h + 1) + kv_lines(keys, values) + keep_unknown(
            body_prefix(ls.skip(h + 1)),
            keys,
        ) + after_body(ls.skip(h + 1)),
    decreases h,
{
    if h == 0 {
        assert(ls.drop_first() =~~= ls.skip(1));
        assert(ls.take(1) =~~= seq![ls[0]]);
        assert(upsert(ls, id, keys, values) =~~= ls.take(1) + kv_lines(keys, values)
            + keep_unknown(body_prefix(ls.skip(1)), keys) + after_body(ls.skip(1)));
    } else {
        let rest = ls.drop_first();
        assert(!(is_header(ls[0]) && header_name(ls[0]) == id));
        assert(rest[h - 1] == ls[h]);
        assert forall|j: int| 0 <= j < h - 1 implies !(is_header(#[trigger] rest[j])
            && header_name(rest[j]) == id) by {
            assert(rest[j] == ls[j + 1]);
        }
        lemma_upsert_found(rest, h - 1, id, keys, values);
        assert(rest.skip(h) =~~= ls.skip(h + 1));
        assert(rest.take(h) =~~= ls.take(h + 1).drop_first());
        assert(ls.take(h + 1)[0] == ls[0]);
        assert(upsert(ls, id, keys, values) =~~= ls.take(h + 1) + kv_lines(keys, values)
            + keep_unknown(body_prefix(ls.skip(h + 1)), keys) + after_body(ls.skip(h + 1)));
    }
}

/// Where no header named `id` exists, an upsert appends the section at the
/// end and keeps everything else verbatim.
pub proof fn lemma_upsert_absent(
    ls: Seq<Seq<char>>,
    id: Seq<char>,
    keys: Seq<Seq<char>>,
    values: Seq<Seq<char>>,
)
    requires
        forall|j: int|
            0 <= j < ls.len() ==> !(is_header(#[trigger] ls[j]) && header_name(ls[j]) == id),
    ensures
        upsert(ls, id, keys, values) == ls + seq![header_line(id)] + kv_lines(keys, values),
    decreases ls.len(),
{
    if ls.len() == 0 {
        assert(upsert(ls, id, keys, values) =~~= ls + seq![header_line(id)] + kv_lines(
            keys,
            values,
        ));
    } else {
        let rest = ls.drop_first();
        assert forall|j: int| 0 <= j < rest.len() implies !(is_header(#[trigger] rest[j])
            && header_name(rest[j]) == id) by {
            assert(rest[j] == ls[j + 1]);
        }
        lemma_upsert_absent(rest, id, keys, values);
        assert(upsert(ls, id, keys, values) =~~= ls + seq![header_line(id)] + kv_lines(
            keys,
            values,
        ));
    }
}

// ---------------------------------------------------------------------------
// Executable loading and persisting
// ---------------------------------------------------------------------------

/// Decide whether a line is a section header.
pub fn is_header_line(l: &Vec<char>) -> (r: bool)
    ensures
        r == is_header(l@),
{
    let n = l.len();
    n >= 2 && l[0] == '[' && l[n - 1] == ']'
}

/// The index where the section body that starts at `start` ends: the first
/// header line at or after `start`, or the end of the document.
fn section_end(ls: &Vec<Vec<char>>, start: usize) -> (e: usize)
    requires
        start <= ls@.len(),
    ensures
        start <= e <= ls@.len(),
        body_prefix(ls.deep_view().skip(start as int)) == ls.deep_view().subrange(
            start as int,
            e as int,
        ),
        after_body(ls.deep_view().skip(start as int)) == ls.deep_view().skip(e as int),
{
    let ghost dv = ls.deep_view();
    proof {
        assert(dv.len() == ls@.len());
    }
    let n = ls.len();
    let mut j = start;
    while j < n
        invariant
            start <= j <= n,
            n == dv.len(),
            dv == ls.deep_view(),
            body_prefix(dv.skip(start as int)) == dv.subrange(start as int, j as int)
                + body_prefix(dv.skip(j as int)),
            after_body(dv.skip(start as int)) == after_body(dv.skip(j as int)),
        decreases n - j,
    {
        proof {
            assert(dv.skip(j as int)[0] == dv[j as int]);
            assert(dv[j as int] == ls@[j as int]@);
        }
        if is_header_line(&ls[j]) {
            proof {
                assert(body_prefix(dv.skip(j as int)) =~~= Seq::<Seq<char>>::empty());
                assert(after_body(dv.skip(j as int)) == dv.skip(j as int));
                assert(body_prefix(dv.skip(start as int)) =~~= dv.subrange(start as int, j as int));
            }
            return j;
        }
        proof {
            assert(dv.skip(j as int).drop_first() =~~= dv.skip(j + 1int));
            assert(body_prefix(dv.skip(j as int)) == seq![dv[j as int]] + body_prefix(
                dv.skip(j + 1int),
            ));
            assert(dv.subrange(start as int, j as int) + seq![dv[j as int]] =~~= dv.subrange(
                start as int,
                j + 1int,
            ));
            assert(body_prefix(dv.skip(start as int)) =~~= dv.subrange(start as int, j + 1int)
                + body_prefix(dv.skip(j + 1int)));
        }
        j = j + 1;
    }
    proof {
        assert(dv.skip(n as int) =~~= Seq::<Seq<char>>::empty());
        assert(body_prefix(dv.skip(n as int)) =~~= Seq::<Seq<char>>::empty());
        assert(body_prefix(dv.skip(start as int)) =~~= dv.subrange(start as int, n as int));
    }
    n
}

/// Append copies of the lines in `src[from..to]` to `dst`.
fn push_clones(dst: &mut Vec<Vec<char>>, src: &Vec<Vec<char>>, from: usize, to: usize)
    requires
        from <= to <= src@.len(),
    ensures
        final(dst).deep_view() == old(dst).deep_view() + src.deep_view().subrange(
            from as int,
            to as int,
        ),
{
    let mut j = from;
    proof {
        assert(dst.deep_view() =~~= old(dst).deep_view() + src.deep_view().subrange(
            from as int,
            from as int,
        ));
    }
    while j < to
        invariant
            from <= j <= to <= src@.len(),
            dst.deep_view() == old(dst).deep_view() + src.deep_view().subrange(
                from as int,
                j as int,
            ),
        decreases to - j,
    {
        let ghost pre = dst.deep_view();
        let ghost prev = dst@;
        dst.push(clone_chars(&src[j]));
        proof {
            assert forall|p: int| 0 <= p < prev.len() implies #[trigger] dst.deep_view()[p]
                == pre[p] by {
                assert(dst@[p] == prev[p]);
            }
            assert(src.deep_view()[j as int] == src@[j as int]@);
            assert(dst.deep_view().len() == prev.len() + 1);
            assert(dst.deep_view()[prev.len() as int] =~= src@[j as int]@);
            assert(dst.deep_view() =~~= pre.push(src.deep_view()[j as int]));
            assert(dst.deep_view() =~~= old(dst).deep_view() + src.deep_view().subrange(
                from as int,
                j + 1int,
            ));
        }
        j = j + 1;
    }
}

/// Append the record's field lines to `dst`.
fn push_kv_lines(dst: &mut Vec<Vec<char>>, keys: &Vec<Vec<char>>, values: &Vec<Vec<char>>)
    requires
        keys@.len() == values@.len(),
    ensures
        final(dst).deep_view() == old(dst).deep_view() + kv_lines(
            keys.deep_view(),
            values.deep_view(),
        ),
{
    let ghost kdv = keys.deep_view();
    let ghost vdv = values.deep_view();
    let mut q: usize = 0;
    proof {
        assert(kv_lines(kdv.take(0), vdv.take(0)) =~~= Seq::<Seq<char>>::empty());
        assert(dst.deep_view() =~~= old(dst).deep_view() + kv_lines(kdv.take(0), vdv.take(0)));
    }
    while q < keys.len()
        invariant
            q <= kdv.len(),
            kdv.len() == vdv.len(),
            kdv == keys.deep_view(),
            vdv == values.deep_view(),
            kdv.len() == keys@.len(),
            vdv.len() == values@.len(),
            dst.deep_view() == old(dst).deep_view() + kv_lines(
                kdv.take(q as int),
                vdv.take(q as int),
            ),
        decreases kdv.len() - q,
    {
        let ghost pre = dst.deep_view();
        let ghost prev = dst@;
        dst.push(kv_line_exec(&keys[q], &values[q]));
        proof {
            assert forall|p: int| 0 <= p < prev.len() implies #[trigger] dst.deep_view()[p]
                == pre[p] by {
                assert(dst@[p] == prev[p]);
            }
            assert(dst.deep_view().len() == prev.len() + 1);
            assert(kdv[q as int] == keys@[q as int]@);
            assert(vdv[q as int] == values@[q as int]@);
            assert(dst.deep_view()[prev.len() as int] =~= kv_line(kdv[q as int], vdv[q as int]));
            assert(dst.deep_view() =~~= pre.push(kv_line(kdv[q as int], vdv[q as int])));
            lemma_kv_lines_push(kdv.take(q as int), vdv.take(q as int), kdv[q as int], vdv[
                q as int
            ]);
            assert(kdv.take(q as int).push(kdv[q as int]) =~~= kdv.take(q + 1int));
            assert(vdv.take(q as int).push(vdv[q as int]) =~~= vdv.take(q + 1int));
            assert(dst.deep_view() =~~= old(dst).deep_view() + kv_lines(
                kdv.take(q + 1int),
                vdv.take(q + 1int),
            ));
        }
        q = q + 1;
    }
    proof {
        assert(kdv.take(kdv.len() as int) =~~= kdv);
        assert(vdv.take(vdv.len() as int) =~~= vdv);
    }
}

/// Decide whether a line binds any of the given keys.
fn binds_any(l: &Vec<char>, keys: &Vec<Vec<char>>) -> (r: bool)
    ensures
        r == parses_any(l@, keys.deep_view()),
{
    let ghost kdv = keys.deep_view();
    let mut q: usize = 0;
    while q < keys.len()
        invariant
            q <= kdv.len(),
            kdv == keys.deep_view(),
            kdv.len() == keys@.len(),
            forall|p: int| 0 <= p < q ==> parse_kv(l@, #[trigger] kdv[p]) is None,
        decreases kdv.len() - q,
    {
        proof {
            assert(kdv[q as int] == keys@[q as int]@);
        }
        match parse_kv_exec(l, &keys[q]) {
            Some(_) => {
                proof {
                    assert(parse_kv(l@, kdv[q as int]) is Some);
                }
                return true;
            },
            None => {
            },
        }
        q = q + 1;
    }
    proof {
        assert(!parses_any(l@, kdv));
    }
    false
}

/// Append the body lines in `src[from..to]` that bind none of the keys.
fn push_kept(
    dst: &mut Vec<Vec<char>>,
    src: &Vec<Vec<char>>,
    from: usize,
    to: usize,
    keys: &Vec<Vec<char>>,
)
    requires
        from <= to <= src@.len(),
    ensures
        final(dst).deep_view() == old(dst).deep_view() + keep_unknown(
            src.deep_view().subrange(from as int, to as int),
            keys.deep_view(),
        ),
{
    let ghost sdv = src.deep_view();
    let ghost kdv = keys.deep_view();
    let ghost body = sdv.subrange(from as int, to as int);
    let mut j = from;
    proof {
        assert(keep_unknown(sdv.subrange(from as int, from as int), kdv)
            =~~= Seq::<Seq<char>>::empty());
    }
    while j < to
        invariant
            from <= j <= to <= src@.len(),
            sdv == src.deep_view(),
            kdv == keys.deep_view(),
            sdv.len() == src@.len(),
            body == sdv.subrange(from as int, to as int),
            keep_unknown(body, kdv) == dst.deep_view().skip(old(dst)@.len() as int) + keep_unknown(
                sdv.subrange(j as int, to as int),
                kdv,
            ),
            dst.deep_view().take(old(dst)@.len() as int) == old(dst).deep_view(),
            dst@.len() >= old(dst)@.len(),
        decreases to - j,
    {
        let ghost tail = sdv.subrange(j as int, to as int);
        proof {
            assert(tail[0] == sdv[j as int]);
            assert(sdv[j as int] == src@[j as int]@);
            assert(tail.drop_first() =~~= sdv.subrange(j + 1int, to as int));
        }
        if !binds_any(&src[j], keys) {
            let ghost pre = dst.deep_view();
            let ghost prev = dst@;
            dst.push(clone_chars(&src[j]));
            proof {
                assert forall|p: int| 0 <= p < prev.len() implies #[trigger] dst.deep_view()[p]
                    == pre[p] by {
                    assert(dst@[p] == prev[p]);
                }
                assert(dst.deep_view().len() == prev.len() + 1);
                assert(dst.deep_view()[prev.len() as int] =~= src@[j as int]@);
                assert(dst.deep_view() =~~= pre.push(sdv[j as int]));
                assert(keep_unknown(tail, kdv) == seq![tail[0]] + keep_unknown(
                    tail.drop_first(),
                    kdv,
                ));
                assert(dst.deep_view().skip(old(dst)@.len() as int) =~~= dst.deep_view().skip(
                    old(dst)@.len() as int,
                ));
                assert(keep_unknown(body, kdv) =~~= dst.deep_view().skip(old(dst)@.len() as int)
                    + keep_unknown(sdv.subrange(j + 1int, to as int), kdv));
                assert(dst.deep_view().take(old(dst)@.len() as int) =~~= old(dst).deep_view());
            }
        } else {
            proof {
                assert(keep_unknown(tail, kdv) == keep_unknown(tail.drop_first(), kdv));
            }
        }
        j = j + 1;
    }
    proof {
        assert(sdv.subrange(to as int, to as int) =~~= Seq::<Seq<char>>::empty());
        assert(keep_unknown(sdv.subrange(to as int, to as int), kdv)
            =~~= Seq::<Seq<char>>::empty());
        assert(dst.deep_view() =~~= dst.deep_view().take(old(dst)@.len() as int)
            + dst.deep_view().skip(old(dst)@.len() as int));
        assert(dst.deep_view() =~~= old(dst).deep_view() + keep_unknown(body, kdv));
    }
}

/// The value of field `k` in a section body.
fn field_of_exec(body: &Vec<Vec<char>>, k: &Vec<char>) -> (v: Vec<char>)
    ensures
        v@ == field_of(body.deep_view(), k@),
{
    let ghost bdv = body.deep_view();
    proof {
        assert(bdv.skip(0) =~~= bdv);
    }
    let mut m: usize = 0;
    while m < body.len()
        invariant
            m <= bdv.len(),
            bdv == body.deep_view(),
            bdv.len() == body@.len(),
            field_of(bdv, k@) == field_of(bdv.skip(m as int), k@),
        decreases bdv.len() - m,
    {
        proof {
            assert(bdv.skip(m as int)[0] == bdv[m as int]);
            assert(bdv[m as int] == body@[m as int]@);
            assert(bdv.skip(m as int).drop_first() =~~= bdv.skip(m + 1int));
        }
        match parse_kv_exec(&body[m], k) {
            Some(v) => {
                proof {
                    assert(field_of(bdv.skip(m as int), k@) == v@);
                }
                return v;
            },
            None => {
                proof {
                    assert(field_of(bdv.skip(m as int), k@) == field_of(bdv.skip(m + 1int), k@));
                }
            },
        }
        m = m + 1;
    }
    proof {
        assert(bdv.skip(bdv.len() as int) =~~= Seq::<Seq<char>>::empty());
    }
    Vec::new()
}

/// Load the record of the section named `id` from a document text: `None`
/// when the section is absent, else one value per key.
pub fn load_section(text: &str, id: &Vec<char>, keys: &Vec<Vec<char>>) -> (r: Option<
    Vec<Vec<char>>,
>)
    ensures
        r matches Some(vs) ==> load_doc(text@, id@, keys.deep_view()) == Some(vs.deep_view()),
        r is None ==> load_doc(text@, id@, keys.deep_view()) is None,
{
    let tc = crate::chars::chars_of_str(text);
    let ls = split_lines(&tc);
    let ghost lsv = ls.deep_view();
    let ghost kdv = keys.deep_view();
    proof {
        assert(lsv == lines_of(text@));
        assert(lsv.skip(0) =~~= lsv);
        assert(lsv.len() == ls@.len());
        assert(kdv.len() == keys@.len());
    }
    let n = ls.len();
    let mut i: usize = 0;
    while i < n
        invariant
            i <= n,
            n == lsv.len(),
            lsv == ls.deep_view(),
            kdv == keys.deep_view(),
            kdv.len() == keys@.len(),
            lsv == lines_of(text@),
            n == ls@.len(),
            section_body(lsv, id@) == section_body(lsv.skip(i as int), id@),
        decreases n - i,
    {
        proof {
            assert(lsv.skip(i as int)[0] == lsv[i as int]);
            assert(lsv[i as int] == ls@[i as int]@);
            assert(lsv.skip(i as int).drop_first() =~~= lsv.skip(i + 1int));
        }
        if is_named_header(&ls[i], id) {
            let e = section_end(&ls, i + 1);
            proof {
                assert(section_body(lsv.skip(i as int), id@) == Some(
                    body_prefix(lsv.skip(i + 1int)),
                ));
            }
            let mut body: Vec<Vec<char>> = Vec::new();
            push_clones(&mut body, &ls, i + 1, e);
            let ghost bdv = body.deep_view();
            proof {
                assert(bdv =~~= body_prefix(lsv.skip(i + 1int)));
                assert(section_body(lines_of(text@), id@) == Some(bdv));
            }
            let mut values: Vec<Vec<char>> = Vec::new();
            let mut q: usize = 0;
            while q < keys.len()
                invariant
                    q <= kdv.len(),
                    kdv == keys.deep_view(),
                    kdv.len() == keys@.len(),
                    bdv == body.deep_view(),
                    values@.len() == q,
                    forall|p: int|
                        0 <= p < q ==> values.deep_view()[p] == field_of(bdv, #[trigger] kdv[p]),
                decreases kdv.len() - q,
            {
                proof {
                    assert(kdv[q as int] == keys@[q as int]@);
                }
                let ghost pre = values.deep_view();
                let ghost prev = values@;
                values.push(field_of_exec(&body, &keys[q]));
                proof {
                    assert forall|p: int| 0 <= p < prev.len() implies #[trigger] values.deep_view()[p]
                        == pre[p] by {
                        assert(values@[p] == prev[p]);
                    }
                    assert(values.deep_view()[prev.len() as int] =~= field_of(bdv, kdv[q as int]));
                }
                q = q + 1;
            }
            proof {
                assert(values.deep_view() =~~= Seq::new(
                    kdv.len(),
                    |p: int| field_of(bdv, kdv[p]),
                ));
            }
            return Some(values);
        }
        proof {
            assert(section_body(lsv.skip(i as int), id@) == section_body(
                lsv.skip(i + 1int),
                id@,
            ));
        }
        i = i + 1;
    }
    proof {
        assert(lsv.skip(n as int) =~~= Seq::<Seq<char>>::empty());
        assert(section_body(lsv, id@) is None);
    }
    None
}

/// Persist the record of the section named `id` into a document text:
/// rewrite that section's field lines and keep every other line verbatim,
/// appending the section when it is absent.
pub fn persist_section(text: &str, id: &Vec<char>, keys: &Vec<Vec<char>>, values: &Vec<Vec<char>>)
    -> (r: String)
    requires
        keys@.len() == values@.len(),
    ensures
        r@ == persist_doc(text@, id@, keys.deep_view(), values.deep_view()),
{
    let tc = crate::chars::chars_of_str(text);
    let ls: Vec<Vec<char>> = if tc.len() == 0 {
        Vec::new()
    } else {
        split_lines(&tc)
    };
    let ghost lsv = ls.deep_view();
    let ghost kdv = keys.deep_view();
    let ghost vdv = values.deep_view();
    proof {
        if text@.len() == 0 {
            assert(lsv =~~= Seq::<Seq<char>>::empty());
        } else {
            assert(lsv == lines_of(text@));
        }
        assert(lsv.len() == ls@.len());
        assert(kdv.len() == keys@.len());
        assert(vdv.len() == values@.len());
    }
    let n = ls.len();
    let mut i: usize = 0;
    while i < n
        invariant
            i <= n,
            n == lsv.len(),
            n == ls@.len(),
            lsv == ls.deep_view(),
            kdv == keys.deep_view(),
            vdv == values.deep_view(),
            kdv.len() == keys@.len(),
            vdv.len() == values@.len(),
            kdv.len() == vdv.len(),
            persist_doc(text@, id@, kdv, vdv) == unlines(upsert(lsv, id@, kdv, vdv)),
            forall|j: int|
                0 <= j < i ==> !(is_header(#[trigger] lsv[j]) && header_name(lsv[j]) == id@),
        decreases n - i,
    {
        proof {
            assert(lsv[i as int] == ls@[i as int]@);
        }
        if is_named_header(&ls[i], id) {
            let e = section_end(&ls, i + 1);
            let mut out: Vec<Vec<char>> = Vec::new();
            push_clones(&mut out, &ls, 0, i + 1);
            push_kv_lines(&mut out, keys, values);
            push_kept(&mut out, &ls, i + 1, e, keys);
            push_clones(&mut out, &ls, e, n);
            proof {
                lemma_upsert_found(lsv, i as int, id@, kdv, vdv);
                assert(lsv.subrange(0, i + 1int) =~~= lsv.take(i + 1int));
                assert(lsv.subrange(e as int, n as int) =~~= lsv.skip(e as int));
                assert(out.deep_view() =~~= upsert(lsv, id@, kdv, vdv));
            }
            let joined = join_lines(&out);
            return crate::chars::string_of_chars(&joined);
        }
        i = i + 1;
    }
    proof {
        lemma_upsert_absent(lsv, id@, kdv, vdv);
    }
    let mut out: Vec<Vec<char>> = Vec::new();
    push_clones(&mut out, &ls, 0, n);
    out.push(header_line_exec(id));
    push_kv_lines(&mut out, keys, values);
    proof {
        assert(lsv.subrange(0, n as int) =~~= lsv);
        assert(out.deep_view() =~~= upsert(lsv, id@, kdv, vdv));
    }
    let joined = join_lines(&out);
    crate::chars::string_of_chars(&joined)
}

} // verus!
