//! The marker payload grammar.
//!
//! A structured entry stores its payload as one JSON object on the marker
//! comment line. The shape is closed — `group` and `name` strings and an
//! optional `repo_args` object of two strings — so the codec is written
//! here as this library's own grammar: a serializer that emits the one
//! canonical form, and a strict parser that accepts exactly that form.
//! Strictness is what makes the table round-trip: a block whose payload
//! parses re-encodes to the very same characters, and anything else is
//! preserved as an opaque entry.

use vstd::prelude::*;

use crate::item::{ItemArgs, ItemArgsV, RepoArgs, RepoArgsV};
use crate::strutil::{chars_to_string, chars_vec, has_prefix, no_nl, vec_has_prefix_at};

verus! {

/// The hexadecimal digit character for `n`.
pub open spec fn hex_digit(n: int) -> char {
    if n == 0 {
        '0'
    } else if n == 1 {
        '1'
    } else if n == 2 {
        '2'
    } else if n == 3 {
        '3'
    } else if n == 4 {
        '4'
    } else if n == 5 {
        '5'
    } else if n == 6 {
        '6'
    } else if n == 7 {
        '7'
    } else if n == 8 {
        '8'
    } else if n == 9 {
        '9'
    } else if n == 10 {
        'a'
    } else if n == 11 {
        'b'
    } else if n == 12 {
        'c'
    } else if n == 13 {
        'd'
    } else if n == 14 {
        'e'
    } else {
        'f'
    }
}

/// The value of a lowercase hexadecimal digit character, or `-1`.
pub open spec fn unhex(c: char) -> int {
    if c == '0' {
        0
    } else if c == '1' {
        1
    } else if c == '2' {
        2
    } else if c == '3' {
        3
    } else if c == '4' {
        4
    } else if c == '5' {
        5
    } else if c == '6' {
        6
    } else if c == '7' {
        7
    } else if c == '8' {
        8
    } else if c == '9' {
        9
    } else if c == 'a' {
        10
    } else if c == 'b' {
        11
    } else if c == 'c' {
        12
    } else if c == 'd' {
        13
    } else if c == 'e' {
        14
    } else if c == 'f' {
        15
    } else {
        -1
    }
}

/// A character a JSON string stores unescaped.
pub open spec fn plain_char(c: char) -> bool {
    c != '"' && c != '\\' && (c as u32) >= 0x20
}

/// A control character with a named short escape.
pub open spec fn named_esc(c: char) -> bool {
    c == '\u{8}' || c == '\t' || c == '\n' || c == '\u{c}' || c == '\r'
}

/// How one character is written inside a JSON string.
pub open spec fn esc_char(c: char) -> Seq<char> {
    if c == '"' {
        seq!['\\', '"']
    } else if c == '\\' {
        seq!['\\', '\\']
    } else if c == '\u{8}' {
        seq!['\\', 'b']
    } else if c == '\t' {
        seq!['\\', 't']
    } else if c == '\n' {
        seq!['\\', 'n']
    } else if c == '\u{c}' {
        seq!['\\', 'f']
    } else if c == '\r' {
        seq!['\\', 'r']
    } else if (c as u32) < 0x20 {
        seq!['\\', 'u', '0', '0', hex_digit(c as u32 as int / 16), hex_digit(c as u32 as int % 16)]
    } else {
        seq![c]
    }
}

/// The escaped body of a JSON string.
pub open spec fn esc_str(s: Seq<char>) -> Seq<char>
    decreases s.len(),
{
    if s.len() == 0 {
        Seq::empty()
    } else {
        esc_char(s[0]) + esc_str(s.drop_first())
    }
}

/// A JSON string: quoted, escaped body.
pub open spec fn jstr(s: Seq<char>) -> Seq<char> {
    seq!['"'] + esc_str(s) + seq!['"']
}

/// The serialized `repo_args` field.
pub open spec fn ser_repo_args(o: Option<RepoArgsV>) -> Seq<char> {
    match o {
        None => "null"@,
        Some(r) => "{\"whitelist\":"@ + jstr(r.whitelist) + ",\"branch\":"@ + jstr(r.branch)
            + "}"@,
    }
}

/// The canonical serialization of a payload.
pub open spec fn ser_args(a: ItemArgsV) -> Seq<char> {
    "{\"group\":"@ + jstr(a.group) + ",\"name\":"@ + jstr(a.name) + ",\"repo_args\":"@
        + ser_repo_args(a.repo_args) + "}"@
}

/// One escape, after its backslash: the character it denotes and how many
/// characters it took.
pub open spec fn parse_esc(s: Seq<char>) -> Option<(char, int)> {
    if s.len() == 0 {
        None
    } else if s[0] == '"' {
        Some(('"', 1))
    } else if s[0] == '\\' {
        Some(('\\', 1))
    } else if s[0] == 'b' {
        Some(('\u{8}', 1))
    } else if s[0] == 't' {
        Some(('\t', 1))
    } else if s[0] == 'n' {
        Some(('\n', 1))
    } else if s[0] == 'f' {
        Some(('\u{c}', 1))
    } else if s[0] == 'r' {
        Some(('\r', 1))
    } else if s[0] == 'u' {
        if s.len() >= 5 && s[1] == '0' && s[2] == '0' && unhex(s[3]) != -1 && unhex(s[4]) != -1 {
            let code = unhex(s[3]) * 16 + unhex(s[4]);
            if code < 0x20 && !named_esc(((code as u32) as char)) {
                Some((((code as u32) as char), 5))
            } else {
                None
            }
        } else {
            None
        }
    } else {
        None
    }
}

/// The body of a JSON string, up to and including its closing quote: the
/// decoded characters and how many input characters they took.
pub open spec fn parse_str_body(s: Seq<char>) -> Option<(Seq<char>, int)>
    decreases s.len(),
{
    if s.len() == 0 {
        None
    } else if s[0] == '"' {
        Some((Seq::empty(), 1))
    } else if s[0] == '\\' {
        match parse_esc(s.skip(1)) {
            Some((c, k)) => {
                if 0 <= k && 1 + k <= s.len() {
                    match parse_str_body(s.skip(1 + k)) {
                        Some((v, j)) => Some((seq![c] + v, 1 + k + j)),
                        None => None,
                    }
                } else {
                    None
                }
            },
            None => None,
        }
    } else if plain_char(s[0]) {
        match parse_str_body(s.skip(1)) {
            Some((v, j)) => Some((seq![s[0]] + v, 1 + j)),
            None => None,
        }
    } else {
        None
    }
}

/// A whole JSON string, with its opening quote.
pub open spec fn parse_jstr(s: Seq<char>) -> Option<(Seq<char>, int)> {
    if s.len() > 0 && s[0] == '"' {
        match parse_str_body(s.skip(1)) {
            Some((v, j)) => Some((v, 1 + j)),
            None => None,
        }
    } else {
        None
    }
}

/// The `repo_args` field: `null` or the two-string object.
pub open spec fn parse_repo_args(s: Seq<char>) -> Option<(Option<RepoArgsV>, int)> {
    if has_prefix(s, "null"@) {
        Some((None, "null"@.len() as int))
    } else if has_prefix(s, "{\"whitelist\":"@) {
        let s1 = s.skip("{\"whitelist\":"@.len() as int);
        match parse_jstr(s1) {
            None => None,
            Some((w, k1)) => {
                let s2 = s1.skip(k1);
                if has_prefix(s2, ",\"branch\":"@) {
                    let s3 = s2.skip(",\"branch\":"@.len() as int);
                    match parse_jstr(s3) {
                        None => None,
                        Some((b, k2)) => {
                            let s4 = s3.skip(k2);
                            if has_prefix(s4, "}"@) {
                                Some(
                                    (
                                        Some(RepoArgsV { whitelist: w, branch: b }),
                                        "{\"whitelist\":"@.len() + k1 + ",\"branch\":"@.len() + k2
                                            + 1,
                                    ),
                                )
                            } else {
                                None
                            }
                        },
                    }
                } else {
                    None
                }
            },
        }
    } else {
        None
    }
}

/// A whole payload. `Some` exactly on the canonical serialization of the
/// returned value, consumed in full.
pub open spec fn parse_args(s: Seq<char>) -> Option<ItemArgsV> {
    if !has_prefix(s, "{\"group\":"@) {
        None
    } else {
        let s1 = s.skip("{\"group\":"@.len() as int);
        match parse_jstr(s1) {
            None => None,
            Some((g, k1)) => {
                let s2 = s1.skip(k1);
                if !has_prefix(s2, ",\"name\":"@) {
                    None
                } else {
                    let s3 = s2.skip(",\"name\":"@.len() as int);
                    match parse_jstr(s3) {
                        None => None,
                        Some((nm, k2)) => {
                            let s4 = s3.skip(k2);
                            if !has_prefix(s4, ",\"repo_args\":"@) {
                                None
                            } else {
                                let s5 = s4.skip(",\"repo_args\":"@.len() as int);
                                match parse_repo_args(s5) {
                                    None => None,
                                    Some((ra, k3)) => {
                                        let s6 = s5.skip(k3);
                                        if s6 == "}"@ {
                                            Some(ItemArgsV { group: g, name: nm, repo_args: ra })
                                        } else {
                                            None
                                        }
                                    },
                                }
                            }
                        },
                    }
                }
            },
        }
    }
}

/// Reading back a hexadecimal digit gives the value it was written from.
proof fn lemma_unhex_hex(n: int)
    requires
        0 <= n < 16,
    ensures
        unhex(hex_digit(n)) == n,
{
}

/// Writing back a hexadecimal digit gives the character it was read from.
proof fn lemma_hex_unhex(c: char)
    requires
        unhex(c) != -1,
    ensures
        0 <= unhex(c) < 16,
        hex_digit(unhex(c)) == c,
{
}

/// Escapes append one character at a time.
proof fn lemma_esc_str_snoc(s: Seq<char>, c: char)
    ensures
        esc_str(s.push(c)) == esc_str(s) + esc_char(c),
    decreases s.len(),
{
    if s.len() == 0 {
        assert(s.push(c)[0] == c);
        assert(s.push(c).drop_first() =~= Seq::<char>::empty());
        assert(esc_str(s.push(c)) == esc_char(c) + esc_str(Seq::<char>::empty()));
        assert(esc_str(Seq::<char>::empty()) == Seq::<char>::empty());
        assert(esc_str(s.push(c)) =~= esc_str(s) + esc_char(c));
    } else {
        assert(s.push(c).drop_first() =~= s.drop_first().push(c));
        lemma_esc_str_snoc(s.drop_first(), c);
        assert(s.push(c)[0] == s[0]);
        assert(esc_str(s.push(c)) == esc_char(s[0]) + esc_str(s.drop_first().push(c)));
        assert(esc_str(s.push(c)) == esc_char(s[0]) + (esc_str(s.drop_first()) + esc_char(c)));
        assert(esc_char(s[0]) + (esc_str(s.drop_first()) + esc_char(c)) =~= (esc_char(s[0])
            + esc_str(s.drop_first())) + esc_char(c));
    }
}

/// The escape written for a non-plain character reads back as that
/// character.
proof fn lemma_parse_esc_of(c: char, rest: Seq<char>)
    requires
        !plain_char(c),
    ensures
        parse_esc(esc_char(c).skip(1) + rest) == Some((c, esc_char(c).len() - 1)),
{
    let e = esc_char(c);
    let t = e.skip(1) + rest;
    if c == '"' || c == '\\' || named_esc(c) {
        assert(t[0] == e[1]);
    } else {
        // a control character written as a `\u00..` escape
        let code = c as u32 as int;
        let hi = code / 16;
        let lo = code % 16;
        assert(t[0] == 'u' && t[1] == '0' && t[2] == '0' && t[3] == hex_digit(hi) && t[4]
            == hex_digit(lo));
        lemma_unhex_hex(hi);
        lemma_unhex_hex(lo);
        assert(unhex(t[3]) * 16 + unhex(t[4]) == code);
        assert((code as u32) as char == c);
    }
}

/// The escaped body written for a string reads back as that string.
proof fn lemma_parse_body_of(s: Seq<char>, rest: Seq<char>)
    ensures
        parse_str_body(esc_str(s) + seq!['"'] + rest) == Some((s, esc_str(s).len() + 1int)),
    decreases s.len(),
{
    let t = esc_str(s) + seq!['"'] + rest;
    if s.len() == 0 {
        assert(t[0] == '"');
        assert(s =~= Seq::<char>::empty());
    } else {
        let c = s[0];
        let e = esc_char(c);
        let tail = esc_str(s.drop_first()) + seq!['"'] + rest;
        assert(esc_str(s) == e + esc_str(s.drop_first()));
        if plain_char(c) {
            assert(e =~= seq![c]);
            assert(t[0] == c);
            assert(!(c == '"') && !(c == '\\'));
            assert(t.skip(1) =~= tail);
            lemma_parse_body_of(s.drop_first(), rest);
            assert(seq![c] + s.drop_first() =~= s);
        } else {
            assert(t[0] == e[0]);
            assert(e[0] == '\\');
            assert(t.skip(1) =~= e.skip(1) + tail);
            lemma_parse_esc_of(c, tail);
            assert(parse_esc(t.skip(1)) == Some((c, e.len() - 1)));
            assert(t.skip(e.len() as int) =~= tail);
            lemma_parse_body_of(s.drop_first(), rest);
            assert(seq![c] + s.drop_first() =~= s);
        }
    }
}

/// The JSON string written for a value reads back as that value.
proof fn lemma_parse_jstr_of(s: Seq<char>, rest: Seq<char>)
    ensures
        parse_jstr(jstr(s) + rest) == Some((s, jstr(s).len() as int)),
{
    let t = jstr(s) + rest;
    assert(t[0] == '"');
    assert(t.skip(1) =~= esc_str(s) + seq!['"'] + rest);
    lemma_parse_body_of(s, rest);
}

/// The serialized `repo_args` field reads back as the value it was
/// written from.
#[verifier::rlimit(50)]
proof fn lemma_parse_repo_args_of(o: Option<RepoArgsV>, rest: Seq<char>)
    requires
        rest.len() > 0 ==> rest[0] == '}',
    ensures
        parse_repo_args(ser_repo_args(o) + rest) == Some((o, ser_repo_args(o).len() as int)),
{
    let t = ser_repo_args(o) + rest;
    proof_lit_distinct();
    match o {
        None => {
            assert(t.subrange(0, "null"@.len() as int) =~= "null"@);
            assert(has_prefix(t, "null"@));
        },
        Some(r) => {
            let l1 = "{\"whitelist\":"@;
            let l2 = ",\"branch\":"@;
            assert(t.subrange(0, l1.len() as int) =~= l1);
            assert(has_prefix(t, l1));
            assert(!has_prefix(t, "null"@)) by {
                proof_lit_distinct();
                if has_prefix(t, "null"@) {
                    assert(t.subrange(0, "null"@.len() as int)[0] == "null"@[0]);
                    assert(t[0] == l1[0]);
                }
            }
            let s1 = t.skip(l1.len() as int);
            assert(s1 =~= jstr(r.whitelist) + (l2 + jstr(r.branch) + "}"@ + rest));
            lemma_parse_jstr_of(r.whitelist, l2 + jstr(r.branch) + "}"@ + rest);
            let k1 = jstr(r.whitelist).len() as int;
            let s2 = s1.skip(k1);
            assert(s2 =~= l2 + (jstr(r.branch) + "}"@ + rest));
            assert(s2.subrange(0, l2.len() as int) =~= l2);
            let s3 = s2.skip(l2.len() as int);
            assert(s3 =~= jstr(r.branch) + ("}"@ + rest));
            lemma_parse_jstr_of(r.branch, "}"@ + rest);
            let k2 = jstr(r.branch).len() as int;
            let s4 = s3.skip(k2);
            assert(s4 =~= "}"@ + rest);
            assert(s4.subrange(0, "}"@.len() as int) =~= "}"@);
            assert(has_prefix(s4, "}"@));
        },
    }
}

/// The first characters of the serialization forms, pinned down so that
/// prefix tests can tell the forms apart.
proof fn proof_lit_distinct()
    ensures
        "null"@.len() == 4 && "null"@[0] == 'n',
        "{\"whitelist\":"@.len() == 13 && "{\"whitelist\":"@[0] == '{',
        ",\"branch\":"@.len() == 10,
        "{\"group\":"@.len() == 9,
        ",\"name\":"@.len() == 8,
        ",\"repo_args\":"@.len() == 13,
        "}"@.len() == 1 && "}"@[0] == '}',
{
    reveal_strlit("null");
    reveal_strlit("{\"whitelist\":");
    reveal_strlit(",\"branch\":");
    reveal_strlit("{\"group\":");
    reveal_strlit(",\"name\":");
    reveal_strlit(",\"repo_args\":");
    reveal_strlit("}");
}

/// None of the serialization's fixed parts holds a newline.
proof fn lemma_lit_no_nl()
    ensures
        no_nl("{\"group\":"@),
        no_nl(",\"name\":"@),
        no_nl(",\"repo_args\":"@),
        no_nl("null"@),
        no_nl("{\"whitelist\":"@),
        no_nl(",\"branch\":"@),
        no_nl("}"@),
{
    reveal_strlit("{\"group\":");
    reveal_strlit(",\"name\":");
    reveal_strlit(",\"repo_args\":");
    reveal_strlit("null");
    reveal_strlit("{\"whitelist\":");
    reveal_strlit(",\"branch\":");
    reveal_strlit("}");
    assert("{\"group\":"@ =~= seq!['{', '"', 'g', 'r', 'o', 'u', 'p', '"', ':']);
    assert(",\"name\":"@ =~= seq![',', '"', 'n', 'a', 'm', 'e', '"', ':']);
    assert(",\"repo_args\":"@ =~= seq![
        ',',
        '"',
        'r',
        'e',
        'p',
        'o',
        '_',
        'a',
        'r',
        'g',
        's',
        '"',
        ':',
    ]);
    assert("null"@ =~= seq!['n', 'u', 'l', 'l']);
    assert("{\"whitelist\":"@ =~= seq![
        '{',
        '"',
        'w',
        'h',
        'i',
        't',
        'e',
        'l',
        'i',
        's',
        't',
        '"',
        ':',
    ]);
    assert(",\"branch\":"@ =~= seq![',', '"', 'b', 'r', 'a', 'n', 'c', 'h', '"', ':']);
    assert("}"@ =~= seq!['}']);
}

/// No escape writes a newline.
proof fn lemma_esc_str_no_nl(s: Seq<char>)
    ensures
        no_nl(esc_str(s)),
    decreases s.len(),
{
    if s.len() > 0 {
        lemma_esc_str_no_nl(s.drop_first());
        let e = esc_char(s[0]);
        assert(no_nl(e)) by {
            if s[0] != '"' && s[0] != '\\' && !named_esc(s[0]) && (s[0] as u32) < 0x20 {
                assert(hex_digit(s[0] as u32 as int / 16) != '\n');
                assert(hex_digit(s[0] as u32 as int % 16) != '\n');
            }
        }
        assert(esc_str(s) == e + esc_str(s.drop_first()));
        assert forall|k: int| 0 <= k < esc_str(s).len() implies esc_str(s)[k] != '\n' by {
            if k < e.len() {
                assert(esc_str(s)[k] == e[k]);
            } else {
                assert(esc_str(s)[k] == esc_str(s.drop_first())[k - e.len()]);
            }
        }
    }
}

/// The canonical serialization of a payload holds no newline: it fits on
/// the one marker comment line.
pub(crate) proof fn lemma_ser_args_no_nl(a: ItemArgsV)
    ensures
        no_nl(ser_args(a)),
{
    lemma_lit_no_nl();
    lemma_esc_str_no_nl(a.group);
    lemma_esc_str_no_nl(a.name);
    assert(no_nl(jstr(a.group)));
    assert(no_nl(jstr(a.name)));
    match a.repo_args {
        None => {
            assert(no_nl(ser_repo_args(a.repo_args)));
        },
        Some(r) => {
            lemma_esc_str_no_nl(r.whitelist);
            lemma_esc_str_no_nl(r.branch);
            assert(no_nl(jstr(r.whitelist)));
            assert(no_nl(jstr(r.branch)));
            assert(no_nl(ser_repo_args(a.repo_args)));
        },
    }
    assert(no_nl(ser_args(a)));
}

/// Strictness: an escape that parses is the one the serializer writes.
proof fn lemma_parse_esc_sound(t: Seq<char>)
    ensures
        parse_esc(t) matches Some((c, k)) ==> {
            &&& 1 <= k <= t.len()
            &&& !plain_char(c)
            &&& esc_char(c) == seq!['\\'] + t.take(k)
        },
{
    if t.len() > 0 && parse_esc(t) is Some {
        let (c, k) = parse_esc(t)->Some_0;
        if t[0] == 'u' {
            let h = unhex(t[3]);
            let l = unhex(t[4]);
            lemma_hex_unhex(t[3]);
            lemma_hex_unhex(t[4]);
            let code = h * 16 + l;
            assert(code < 0x20);
            assert(c == (code as u32) as char);
            assert(c as u32 == code as u32);
            assert((code / 16) == h && (code % 16) == l) by (nonlinear_arith)
                requires
                    0 <= h < 16,
                    0 <= l < 16,
                    code == h * 16 + l,
            ;
            assert(!named_esc(c) && !(c == '"') && !(c == '\\'));
            assert(esc_char(c) == seq![
                '\\',
                'u',
                '0',
                '0',
                hex_digit(c as u32 as int / 16),
                hex_digit(c as u32 as int % 16),
            ]);
            assert(esc_char(c) =~= seq!['\\'] + t.take(5));
        } else {
            assert(esc_char(c) =~= seq!['\\'] + t.take(1));
        }
    }
}

/// Strictness: a string body that parses is the escaped form the
/// serializer writes, closing quote included.
proof fn lemma_parse_body_sound(t: Seq<char>)
    ensures
        parse_str_body(t) matches Some((v, j)) ==> {
            &&& 1 <= j <= t.len()
            &&& esc_str(v) + seq!['"'] == t.take(j)
        },
    decreases t.len(),
{
    if t.len() > 0 && parse_str_body(t) is Some {
        let (v, j) = parse_str_body(t)->Some_0;
        if t[0] == '"' {
            assert(esc_str(v) + seq!['"'] =~= t.take(1));
        } else if t[0] == '\\' {
            let (c, k) = parse_esc(t.skip(1))->Some_0;
            lemma_parse_esc_sound(t.skip(1));
            let (v2, j2) = parse_str_body(t.skip(1 + k))->Some_0;
            lemma_parse_body_sound(t.skip(1 + k));
            assert(v == seq![c] + v2);
            assert(v[0] == c);
            assert(v.drop_first() =~= v2);
            assert(esc_str(v) == esc_char(c) + esc_str(v2));
            assert(esc_char(c) == seq!['\\'] + t.skip(1).take(k));
            assert(esc_str(v2) + seq!['"'] == t.skip(1 + k).take(j2));
            assert(t.skip(1).take(k) =~= t.subrange(1, 1 + k));
            assert(t.skip(1 + k).take(j2) =~= t.subrange(1 + k, j));
            assert(esc_str(v) + seq!['"'] == (esc_char(c) + esc_str(v2)) + seq!['"']);
            assert((esc_char(c) + esc_str(v2)) + seq!['"'] =~= esc_char(c) + (esc_str(v2)
                + seq!['"']));
            assert(esc_char(c) + (esc_str(v2) + seq!['"']) == (seq!['\\'] + t.subrange(1, 1 + k))
                + t.subrange(1 + k, j));
            assert((seq!['\\'] + t.subrange(1, 1 + k)) + t.subrange(1 + k, j) =~= t.take(j));
        } else {
            let (v2, j2) = parse_str_body(t.skip(1))->Some_0;
            lemma_parse_body_sound(t.skip(1));
            assert(v == seq![t[0]] + v2);
            assert(v[0] == t[0]);
            assert(v.drop_first() =~= v2);
            assert(esc_str(v) == esc_char(t[0]) + esc_str(v2));
            assert(esc_char(t[0]) =~= seq![t[0]]);
            assert(esc_str(v2) + seq!['"'] == t.skip(1).take(j2));
            assert(t.skip(1).take(j2) =~= t.subrange(1, j));
            assert(esc_str(v) + seq!['"'] == (seq![t[0]] + esc_str(v2)) + seq!['"']);
            assert((seq![t[0]] + esc_str(v2)) + seq!['"'] =~= seq![t[0]] + (esc_str(v2)
                + seq!['"']));
            assert(seq![t[0]] + (esc_str(v2) + seq!['"']) == seq![t[0]] + t.subrange(1, j));
            assert(seq![t[0]] + t.subrange(1, j) =~= t.take(j));
        }
    }
}

/// Strictness: a JSON string that parses is the serializer's form.
proof fn lemma_parse_jstr_sound(t: Seq<char>)
    ensures
        parse_jstr(t) matches Some((v, j)) ==> {
            &&& 2 <= j <= t.len()
            &&& jstr(v) == t.take(j)
        },
{
    if parse_jstr(t) is Some {
        let (v, j) = parse_jstr(t)->Some_0;
        lemma_parse_body_sound(t.skip(1));
        let (v2, j2) = parse_str_body(t.skip(1))->Some_0;
        assert(esc_str(v2) + seq!['"'] == t.skip(1).take(j2));
        assert(t.skip(1).take(j2) =~= t.subrange(1, j));
        assert(jstr(v) == (seq!['"'] + esc_str(v)) + seq!['"']);
        assert((seq!['"'] + esc_str(v)) + seq!['"'] =~= seq!['"'] + (esc_str(v) + seq!['"']));
        assert(seq!['"'] + (esc_str(v) + seq!['"']) == seq!['"'] + t.subrange(1, j));
        assert(seq!['"'] + t.subrange(1, j) =~= t.take(j));
    }
}

/// Strictness: a `repo_args` field that parses is the serializer's form.
#[verifier::rlimit(50)]
proof fn lemma_parse_repo_args_sound(t: Seq<char>)
    ensures
        parse_repo_args(t) matches Some((o, k)) ==> {
            &&& 1 <= k <= t.len()
            &&& ser_repo_args(o) == t.take(k)
        },
{
    proof_lit_distinct();
    if parse_repo_args(t) is Some {
        let (o, k) = parse_repo_args(t)->Some_0;
        if has_prefix(t, "null"@) {
            assert(ser_repo_args(o) =~= t.take(k));
        } else {
            let l1 = "{\"whitelist\":"@;
            let l2 = ",\"branch\":"@;
            let s1 = t.skip(l1.len() as int);
            let (w, k1) = parse_jstr(s1)->Some_0;
            lemma_parse_jstr_sound(s1);
            let s2 = s1.skip(k1);
            let s3 = s2.skip(l2.len() as int);
            let (b, k2) = parse_jstr(s3)->Some_0;
            lemma_parse_jstr_sound(s3);
            let s4 = s3.skip(k2);
            assert(jstr(w) == s1.take(k1));
            assert(jstr(b) == s3.take(k2));
            assert(s2.take(l2.len() as int) == l2);
            assert(s4.take(1) == "}"@) by {
                assert(s4.take(1) =~= s4.subrange(0, "}"@.len() as int));
            }
            assert(ser_repo_args(o) == l1 + jstr(w) + l2 + jstr(b) + "}"@);
            assert(ser_repo_args(o) =~= t.take(k));
        }
    }
}

/// Strictness: a payload that parses came from exactly its canonical
/// serialization.
#[verifier::rlimit(80)]
pub proof fn lemma_parse_args_sound(t: Seq<char>)
    ensures
        parse_args(t) matches Some(a) ==> ser_args(a) == t,
{
    proof_lit_distinct();
    if parse_args(t) is Some {
        let a = parse_args(t)->Some_0;
        let l1 = "{\"group\":"@;
        let l2 = ",\"name\":"@;
        let l3 = ",\"repo_args\":"@;
        let s1 = t.skip(l1.len() as int);
        let (g, k1) = parse_jstr(s1)->Some_0;
        lemma_parse_jstr_sound(s1);
        let s2 = s1.skip(k1);
        let s3 = s2.skip(l2.len() as int);
        let (nm, k2) = parse_jstr(s3)->Some_0;
        lemma_parse_jstr_sound(s3);
        let s4 = s3.skip(k2);
        let s5 = s4.skip(l3.len() as int);
        let (ra, k3) = parse_repo_args(s5)->Some_0;
        lemma_parse_repo_args_sound(s5);
        let s6 = s5.skip(k3);
        assert(jstr(g) == s1.take(k1));
        assert(jstr(nm) == s3.take(k2));
        assert(ser_repo_args(ra) == s5.take(k3));
        assert(t.take(l1.len() as int) == l1);
        assert(s2.take(l2.len() as int) == l2);
        assert(s4.take(l3.len() as int) == l3);
        assert(s6 == "}"@);
        assert(ser_args(a) == l1 + jstr(g) + l2 + jstr(nm) + l3 + ser_repo_args(ra) + "}"@);
        assert(ser_args(a) =~= t);
    }
}

/// Round trip: the canonical serialization of any payload parses back to
/// exactly that payload.
#[verifier::rlimit(80)]
pub proof fn lemma_parse_ser_args(a: ItemArgsV)
    ensures
        parse_args(ser_args(a)) == Some(a),
{
    let l1 = "{\"group\":"@;
    let l2 = ",\"name\":"@;
    let l3 = ",\"repo_args\":"@;
    let s = ser_args(a);
    proof_lit_distinct();
    assert(s.subrange(0, l1.len() as int) =~= l1);
    assert(has_prefix(s, l1));
    let s1 = s.skip(l1.len() as int);
    let rest1 = l2 + jstr(a.name) + l3 + ser_repo_args(a.repo_args) + "}"@;
    assert(s1 =~= jstr(a.group) + rest1);
    lemma_parse_jstr_of(a.group, rest1);
    let k1 = jstr(a.group).len() as int;
    let s2 = s1.skip(k1);
    assert(s2 =~= l2 + (jstr(a.name) + l3 + ser_repo_args(a.repo_args) + "}"@));
    assert(s2.subrange(0, l2.len() as int) =~= l2);
    let s3 = s2.skip(l2.len() as int);
    let rest2 = l3 + ser_repo_args(a.repo_args) + "}"@;
    assert(s3 =~= jstr(a.name) + rest2);
    lemma_parse_jstr_of(a.name, rest2);
    let k2 = jstr(a.name).len() as int;
    let s4 = s3.skip(k2);
    assert(s4 =~= l3 + (ser_repo_args(a.repo_args) + "}"@));
    assert(s4.subrange(0, l3.len() as int) =~= l3);
    let s5 = s4.skip(l3.len() as int);
    assert(s5 =~= ser_repo_args(a.repo_args) + "}"@);
    assert("}"@.len() > 0 && "}"@[0] == '}');
    lemma_parse_repo_args_of(a.repo_args, "}"@);
    let k3 = ser_repo_args(a.repo_args).len() as int;
    let s6 = s5.skip(k3);
    assert(s6 =~= "}"@);
    assert(parse_args(s) == Some(ItemArgsV { group: a.group, name: a.name, repo_args: a.repo_args }));
    assert(ItemArgsV { group: a.group, name: a.name, repo_args: a.repo_args } =~= a);
}

/// The view of an optional `repo_args` value.
pub open spec fn opt_repo_args_view(o: Option<RepoArgs>) -> Option<RepoArgsV> {
    match o {
        Some(r) => Some(r@),
        None => None,
    }
}

/// The hexadecimal digit character for a value below 16.
fn hex_digit_c(d: u32) -> (r: char)
    requires
        d < 16,
    ensures
        r == hex_digit(d as int),
{
    if d == 0 {
        '0'
    } else if d == 1 {
        '1'
    } else if d == 2 {
        '2'
    } else if d == 3 {
        '3'
    } else if d == 4 {
        '4'
    } else if d == 5 {
        '5'
    } else if d == 6 {
        '6'
    } else if d == 7 {
        '7'
    } else if d == 8 {
        '8'
    } else if d == 9 {
        '9'
    } else if d == 10 {
        'a'
    } else if d == 11 {
        'b'
    } else if d == 12 {
        'c'
    } else if d == 13 {
        'd'
    } else if d == 14 {
        'e'
    } else {
        'f'
    }
}

/// The value of a lowercase hexadecimal digit character.
fn unhex_c(c: char) -> (r: Option<u8>)
    ensures
        match r {
            Some(d) => d < 16 && unhex(c) == d as int,
            None => unhex(c) == -1,
        },
{
    if c == '0' {
        Some(0)
    } else if c == '1' {
        Some(1)
    } else if c == '2' {
        Some(2)
    } else if c == '3' {
        Some(3)
    } else if c == '4' {
        Some(4)
    } else if c == '5' {
        Some(5)
    } else if c == '6' {
        Some(6)
    } else if c == '7' {
        Some(7)
    } else if c == '8' {
        Some(8)
    } else if c == '9' {
        Some(9)
    } else if c == 'a' {
        Some(10)
    } else if c == 'b' {
        Some(11)
    } else if c == 'c' {
        Some(12)
    } else if c == 'd' {
        Some(13)
    } else if c == 'e' {
        Some(14)
    } else if c == 'f' {
        Some(15)
    } else {
        None
    }
}

/// Appends the escaped form of one character.
fn push_esc(out: &mut Vec<char>, c: char)
    ensures
        final(out)@ == old(out)@ + esc_char(c),
{
    if c == '"' {
        out.push('\\');
        out.push('"');
    } else if c == '\\' {
        out.push('\\');
        out.push('\\');
    } else if c == '\u{8}' {
        out.push('\\');
        out.push('b');
    } else if c == '\t' {
        out.push('\\');
        out.push('t');
    } else if c == '\n' {
        out.push('\\');
        out.push('n');
    } else if c == '\u{c}' {
        out.push('\\');
        out.push('f');
    } else if c == '\r' {
        out.push('\\');
        out.push('r');
    } else {
        let code = c as u32;
        if code < 0x20 {
            out.push('\\');
            out.push('u');
            out.push('0');
            out.push('0');
            out.push(hex_digit_c(code / 16));
            out.push(hex_digit_c(code % 16));
        } else {
            out.push(c);
        }
    }
    proof {
        assert(out@ =~= old(out)@ + esc_char(c));
    }
}

/// Appends the characters of a literal.
fn push_lit(out: &mut Vec<char>, l: &str)
    ensures
        final(out)@ == old(out)@ + l@,
{
    let v = chars_vec(l);
    crate::strutil::extend_chars(out, &v);
}

/// Appends the JSON string form of a value.
fn push_jstr(out: &mut Vec<char>, s: &str)
    ensures
        final(out)@ == old(out)@ + jstr(s@),
{
    let v = chars_vec(s);
    let n = v.len();
    out.push('"');
    let mut i: usize = 0;
    while i < n
        invariant
            i <= n,
            n == v@.len(),
            v@ == s@,
            out@ == old(out)@ + seq!['"'] + esc_str(v@.subrange(0, i as int)),
        decreases n - i,
    {
        let ghost pre = v@.subrange(0, i as int);
        push_esc(out, v[i]);
        proof {
            lemma_esc_str_snoc(pre, v@[i as int]);
            assert(pre.push(v@[i as int]) =~= v@.subrange(0, i + 1));
            assert(out@ =~= old(out)@ + seq!['"'] + esc_str(v@.subrange(0, i + 1)));
        }
        i = i + 1;
    }
    out.push('"');
    proof {
        assert(v@.subrange(0, n as int) =~= s@);
        assert(out@ =~= old(out)@ + jstr(s@));
    }
}

/// The canonical serialization of a payload, as characters.
pub(crate) fn args_to_chars(a: &ItemArgs) -> (r: Vec<char>)
    ensures
        r@ == ser_args(a@),
{
    let mut out = chars_vec("{\"group\":");
    push_jstr(&mut out, a.group.as_str());
    push_lit(&mut out, ",\"name\":");
    push_jstr(&mut out, a.name.as_str());
    push_lit(&mut out, ",\"repo_args\":");
    match &a.repo_args {
        None => {
            push_lit(&mut out, "null");
        },
        Some(ra) => {
            push_lit(&mut out, "{\"whitelist\":");
            push_jstr(&mut out, ra.whitelist.as_str());
            push_lit(&mut out, ",\"branch\":");
            push_jstr(&mut out, ra.branch.as_str());
            push_lit(&mut out, "}");
        },
    }
    push_lit(&mut out, "}");
    proof {
        assert(out@ =~= ser_args(a@));
    }
    out
}

/// One escape of the input, after its backslash.
fn p_esc(v: &Vec<char>, i: usize) -> (r: Option<(char, usize)>)
    requires
        i <= v@.len(),
    ensures
        match r {
            Some(ck) => 1 <= ck.1 && i + ck.1 <= v@.len() && parse_esc(v@.skip(i as int)) == Some(
                (ck.0, ck.1 as int),
            ),
            None => parse_esc(v@.skip(i as int)) is None,
        },
{
    let n = v.len();
    if i == n {
        return None;
    }
    let c0 = v[i];
    proof {
        assert(v@.skip(i as int)[0] == c0);
    }
    if c0 == '"' {
        Some(('"', 1))
    } else if c0 == '\\' {
        Some(('\\', 1))
    } else if c0 == 'b' {
        Some(('\u{8}', 1))
    } else if c0 == 't' {
        Some(('\t', 1))
    } else if c0 == 'n' {
        Some(('\n', 1))
    } else if c0 == 'f' {
        Some(('\u{c}', 1))
    } else if c0 == 'r' {
        Some(('\r', 1))
    } else if c0 == 'u' {
        if n - i < 5 {
            return None;
        }
        proof {
            assert(v@.skip(i as int)[1] == v@[i + 1]);
            assert(v@.skip(i as int)[2] == v@[i + 2]);
            assert(v@.skip(i as int)[3] == v@[i + 3]);
            assert(v@.skip(i as int)[4] == v@[i + 4]);
        }
        if v[i + 1] != '0' || v[i + 2] != '0' {
            return None;
        }
        let h = match unhex_c(v[i + 3]) {
            Some(h) => h,
            None => {
                return None;
            },
        };
        let l = match unhex_c(v[i + 4]) {
            Some(l) => l,
            None => {
                return None;
            },
        };
        let code: u8 = h * 16 + l;
        if code >= 0x20 {
            return None;
        }
        let c = code as char;
        if c == '\u{8}' || c == '\t' || c == '\n' || c == '\u{c}' || c == '\r' {
            return None;
        }
        proof {
            assert(c as u32 == code as u32);
        }
        Some((c, 5))
    } else {
        None
    }
}

/// The body of a JSON string, accumulating its decoded characters.
fn p_str_body(v: &Vec<char>, i: usize) -> (r: Option<(Vec<char>, usize)>)
    requires
        i <= v@.len(),
    ensures
        match r {
            Some(oj) => i < oj.1 <= v@.len() && parse_str_body(v@.skip(i as int)) == Some(
                (oj.0@, oj.1 - i),
            ),
            None => parse_str_body(v@.skip(i as int)) is None,
        },
{
    let n = v.len();
    let mut out: Vec<char> = Vec::new();
    let mut j: usize = i;
    loop
        invariant
            i <= j <= n,
            n == v@.len(),
            match parse_str_body(v@.skip(j as int)) {
                Some(p) => parse_str_body(v@.skip(i as int)) == Some((out@ + p.0, (j - i) + p.1)),
                None => parse_str_body(v@.skip(i as int)) is None,
            },
        decreases n - j,
    {
        if j == n {
            return None;
        }
        let c0 = v[j];
        proof {
            assert(v@.skip(j as int)[0] == c0);
        }
        if c0 == '"' {
            proof {
                assert(parse_str_body(v@.skip(j as int)) == Some((Seq::<char>::empty(), 1int)));
                assert(out@ + Seq::<char>::empty() =~= out@);
            }
            return Some((out, j + 1));
        }
        if c0 == '\\' {
            proof {
                assert(v@.skip(j as int).skip(1) =~= v@.skip(j + 1));
            }
            match p_esc(v, j + 1) {
                None => {
                    return None;
                },
                Some((c, k)) => {
                    let j2 = j + 1 + k;
                    proof {
                        let sj = v@.skip(j as int);
                        assert(sj.skip(1 + k as int) =~= v@.skip(j2 as int));
                        match parse_str_body(v@.skip(j2 as int)) {
                            Some(p) => {
                                assert(parse_str_body(sj) == Some(
                                    (seq![c] + p.0, 1 + k as int + p.1),
                                ));
                                assert(out@ + (seq![c] + p.0) =~= out@.push(c) + p.0);
                            },
                            None => {
                                assert(parse_str_body(sj) is None);
                            },
                        }
                    }
                    out.push(c);
                    j = j2;
                },
            }
        } else {
            let code = c0 as u32;
            if code < 0x20 {
                return None;
            }
            proof {
                let sj = v@.skip(j as int);
                assert(sj.skip(1) =~= v@.skip(j + 1));
                match parse_str_body(v@.skip(j + 1)) {
                    Some(p) => {
                        assert(parse_str_body(sj) == Some((seq![c0] + p.0, 1 + p.1)));
                        assert(out@ + (seq![c0] + p.0) =~= out@.push(c0) + p.0);
                    },
                    None => {
                        assert(parse_str_body(sj) is None);
                    },
                }
            }
            out.push(c0);
            j = j + 1;
        }
    }
}

/// A whole JSON string of the input.
fn p_jstr(v: &Vec<char>, i: usize) -> (r: Option<(Vec<char>, usize)>)
    requires
        i <= v@.len(),
    ensures
        match r {
            Some(oj) => i < oj.1 <= v@.len() && parse_jstr(v@.skip(i as int)) == Some(
                (oj.0@, oj.1 - i),
            ),
            None => parse_jstr(v@.skip(i as int)) is None,
        },
{
    let n = v.len();
    if i == n {
        return None;
    }
    if v[i] != '"' {
        proof {
            assert(v@.skip(i as int)[0] == v@[i as int]);
        }
        return None;
    }
    proof {
        assert(v@.skip(i as int)[0] == '"');
        assert(v@.skip(i as int).skip(1) =~= v@.skip(i + 1));
    }
    match p_str_body(v, i + 1) {
        Some((o, j)) => Some((o, j)),
        None => None,
    }
}

/// The `repo_args` field of the input.
fn p_repo_args(v: &Vec<char>, i: usize) -> (r: Option<(Option<RepoArgs>, usize)>)
    requires
        i <= v@.len(),
    ensures
        match r {
            Some(oj) => i < oj.1 <= v@.len() && parse_repo_args(v@.skip(i as int)) == Some(
                (opt_repo_args_view(oj.0), oj.1 - i),
            ),
            None => parse_repo_args(v@.skip(i as int)) is None,
        },
{
    proof {
        proof_lit_distinct();
    }
    let n = v.len();
    let ghost t = v@.skip(i as int);
    if vec_has_prefix_at(v, i, "null") {
        return Some((None, i + 4));
    }
    if !vec_has_prefix_at(v, i, "{\"whitelist\":") {
        return None;
    }
    let i1 = i + 13;
    proof {
        assert(t.skip(13) =~= v@.skip(i1 as int));
    }
    let (w, i2) = match p_jstr(v, i1) {
        Some(p) => p,
        None => {
            return None;
        },
    };
    let ghost s2 = t.skip(13).skip(i2 - i1);
    proof {
        assert(s2 =~= v@.skip(i2 as int));
    }
    if !vec_has_prefix_at(v, i2, ",\"branch\":") {
        return None;
    }
    let i3 = i2 + 10;
    proof {
        assert(s2.skip(10) =~= v@.skip(i3 as int));
    }
    let (b, i4) = match p_jstr(v, i3) {
        Some(p) => p,
        None => {
            return None;
        },
    };
    let ghost s4 = s2.skip(10).skip(i4 - i3);
    proof {
        assert(s4 =~= v@.skip(i4 as int));
    }
    if !vec_has_prefix_at(v, i4, "}") {
        return None;
    }
    let ra = RepoArgs { whitelist: chars_to_string(&w), branch: chars_to_string(&b) };
    Some((Some(ra), i4 + 1))
}

/// A whole payload of the input, from position `i` to its end. `Some`
/// exactly when those characters are the canonical serialization of the
/// returned value.
#[verifier::rlimit(100)]
pub(crate) fn parse_args_chars(v: &Vec<char>, i: usize) -> (r: Option<ItemArgs>)
    requires
        i <= v@.len(),
    ensures
        match r {
            Some(a) => parse_args(v@.skip(i as int)) == Some(a@),
            None => parse_args(v@.skip(i as int)) is None,
        },
{
    proof {
        proof_lit_distinct();
    }
    let n = v.len();
    let ghost t = v@.skip(i as int);
    if !vec_has_prefix_at(v, i, "{\"group\":") {
        return None;
    }
    let i1 = i + 9;
    proof {
        assert(t.skip(9) =~= v@.skip(i1 as int));
    }
    let (g, i2) = match p_jstr(v, i1) {
        Some(p) => p,
        None => {
            return None;
        },
    };
    let ghost s2 = t.skip(9).skip(i2 - i1);
    proof {
        assert(s2 =~= v@.skip(i2 as int));
    }
    if !vec_has_prefix_at(v, i2, ",\"name\":") {
        return None;
    }
    let i3 = i2 + 8;
    proof {
        assert(s2.skip(8) =~= v@.skip(i3 as int));
    }
    let (nm, i4) = match p_jstr(v, i3) {
        Some(p) => p,
        None => {
            return None;
        },
    };
    let ghost s4 = s2.skip(8).skip(i4 - i3);
    proof {
        assert(s4 =~= v@.skip(i4 as int));
    }
    if !vec_has_prefix_at(v, i4, ",\"repo_args\":") {
        return None;
    }
    let i5 = i4 + 13;
    proof {
        assert(s4.skip(13) =~= v@.skip(i5 as int));
    }
    let (ra, i6) = match p_repo_args(v, i5) {
        Some(p) => p,
        None => {
            return None;
        },
    };
    let ghost s6 = s4.skip(13).skip(i6 - i5);
    proof {
        assert(s6 =~= v@.skip(i6 as int));
    }
    if i6 == n - 1 && vec_has_prefix_at(v, i6, "}") {
        proof {
            assert(s6 =~= "}"@);
        }
        let a = ItemArgs { group: chars_to_string(&g), name: chars_to_string(&nm), repo_args: ra };
        proof {
            assert(a@ =~= ItemArgsV {
                group: g@,
                name: nm@,
                repo_args: opt_repo_args_view(ra),
            });
        }
        Some(a)
    } else {
        proof {
            if s6 == "}"@ {
                assert(s6.len() == 1);
                assert(s6[0] == '}');
                assert(s6.subrange(0, 1) =~= "}"@);
                assert(i6 + 1 == n);
            }
        }
        None
    }
}

} // verus!
