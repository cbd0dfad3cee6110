//! The persisted document and wire-frame format for shortcut lists: a
//! structured text document holding one object per shortcut with its `id`,
//! `name` and `sequence` fields, in list order.
//!
//! The encoder emits one canonical form; the parser accepts that form and
//! rejects everything else, and parsing an encoded document always gives
//! back exactly the list that was encoded (the round-trip law).

use vstd::prelude::*;

use crate::model::{Shortcut, ShortcutV};
use crate::text::{chars_of_str, string_from_chars};

verus! {

// ---------------------------------------------------------------------------
// Encoding, as spec functions: the canonical document of a shortcut list.
// ---------------------------------------------------------------------------

/// The decimal digit character for `d` (`0 <= d <= 9`).
pub open spec fn spec_digit(d: int) -> char {
    (d + 48) as char
}

/// The numeric value of a decimal digit character.
pub open spec fn digit_val(c: char) -> int {
    c as int - 48
}

pub open spec fn is_digit(c: char) -> bool {
    '0' <= c && c <= '9'
}

/// The lower-case hexadecimal digit character for `d` (`0 <= d <= 15`).
pub open spec fn spec_hex_digit(d: int) -> char {
    if d < 10 {
        (d + 48) as char
    } else {
        (d + 87) as char
    }
}

/// The canonical decimal digits of `n`, most significant first, no leading
/// zeros (a lone `0` for zero).
pub open spec fn dec_chars(n: nat) -> Seq<char>
    decreases n,
{
    if n < 10 {
        seq![spec_digit(n as int)]
    } else {
        dec_chars(n / 10) + seq![spec_digit((n % 10) as int)]
    }
}

/// How one character is written inside a quoted string: quote and backslash
/// are escaped with a backslash, control characters as a four-digit
/// hexadecimal escape, and every other character stands as itself.
pub open spec fn enc_char(c: char) -> Seq<char> {
    if c == '"' {
        seq!['\\', '"']
    } else if c == '\\' {
        seq!['\\', '\\']
    } else if (c as int) < 32 {
        seq!['\\', 'u', '0', '0', spec_hex_digit(c as int / 16), spec_hex_digit(c as int % 16)]
    } else {
        seq![c]
    }
}

/// The body of a quoted string: each character escaped as needed.
pub open spec fn str_body_chars(s: Seq<char>) -> Seq<char>
    decreases s.len(),
{
    if s.len() == 0 {
        Seq::empty()
    } else {
        enc_char(s[0]) + str_body_chars(s.drop_first())
    }
}

/// A quoted string.
pub open spec fn string_chars(s: Seq<char>) -> Seq<char> {
    seq!['"'] + str_body_chars(s) + seq!['"']
}

/// Comma-separated quoted strings.
pub open spec fn strings_chars(l: Seq<Seq<char>>) -> Seq<char>
    decreases l.len(),
{
    if l.len() == 0 {
        Seq::empty()
    } else if l.len() == 1 {
        string_chars(l[0])
    } else {
        string_chars(l[0]) + seq![','] + strings_chars(l.drop_first())
    }
}

/// A bracketed list of quoted strings.
pub open spec fn strlist_chars(l: Seq<Seq<char>>) -> Seq<char> {
    seq!['['] + strings_chars(l) + seq![']']
}

pub open spec fn lit_id_key() -> Seq<char> {
    seq!['{', '"', 'i', 'd', '"', ':']
}

pub open spec fn lit_name_key() -> Seq<char> {
    seq![',', '"', 'n', 'a', 'm', 'e', '"', ':']
}

pub open spec fn lit_sequence_key() -> Seq<char> {
    seq![',', '"', 's', 'e', 'q', 'u', 'e', 'n', 'c', 'e', '"', ':']
}

/// One shortcut as an object with its `id`, `name` and `sequence` fields.
pub open spec fn entry_chars(e: ShortcutV) -> Seq<char> {
    lit_id_key() + dec_chars(e.id as nat) + lit_name_key() + string_chars(e.name)
        + lit_sequence_key() + strlist_chars(e.sequence) + seq!['}']
}

/// Comma-separated shortcut objects.
pub open spec fn entries_chars(l: Seq<ShortcutV>) -> Seq<char>
    decreases l.len(),
{
    if l.len() == 0 {
        Seq::empty()
    } else if l.len() == 1 {
        entry_chars(l[0])
    } else {
        entry_chars(l[0]) + seq![','] + entries_chars(l.drop_first())
    }
}

/// The whole document: the ordered shortcut list as a bracketed array.
pub open spec fn doc_chars(l: Seq<ShortcutV>) -> Seq<char> {
    seq!['['] + entries_chars(l) + seq![']']
}

// ---------------------------------------------------------------------------
// Parsing, as spec functions. Each parser takes the characters still to be
// read and yields the parsed value together with the characters after it,
// or nothing when the text does not match the grammar.
// ---------------------------------------------------------------------------

pub open spec fn is_hex(c: char) -> bool {
    ('0' <= c && c <= '9') || ('a' <= c && c <= 'f') || ('A' <= c && c <= 'F')
}

/// The numeric value of a hexadecimal digit character.
pub open spec fn hex_val(c: char) -> int {
    if '0' <= c && c <= '9' {
        c as int - 48
    } else if 'a' <= c && c <= 'f' {
        c as int - 87
    } else {
        c as int - 55
    }
}

/// One character inside a quoted string: an escape sequence or a plain
/// character. A quote ends the string and is not a character; an unpaired
/// backslash, an unknown escape, or a surrogate code unit is a parse error.
pub open spec fn p_char(s: Seq<char>) -> Option<(char, Seq<char>)> {
    if s.len() == 0 || s[0] == '"' {
        None
    } else if s[0] == '\\' {
        if s.len() >= 2 {
            let e = s[1];
            if e == '"' {
                Some(('"', s.skip(2)))
            } else if e == '\\' {
                Some(('\\', s.skip(2)))
            } else if e == '/' {
                Some(('/', s.skip(2)))
            } else if e == 'n' {
                Some(('\n', s.skip(2)))
            } else if e == 't' {
                Some(('\t', s.skip(2)))
            } else if e == 'r' {
                Some(('\r', s.skip(2)))
            } else if e == 'b' {
                Some(('\u{8}', s.skip(2)))
            } else if e == 'f' {
                Some(('\u{c}', s.skip(2)))
            } else if e == 'u' {
                if s.len() >= 6 && is_hex(s[2]) && is_hex(s[3]) && is_hex(s[4]) && is_hex(s[5]) {
                    let v = hex_val(s[2]) * 4096 + hex_val(s[3]) * 256 + hex_val(s[4]) * 16
                        + hex_val(s[5]);
                    if 0xD800 <= v && v < 0xE000 {
                        None
                    } else {
                        Some((v as char, s.skip(6)))
                    }
                } else {
                    None
                }
            } else {
                None
            }
        } else {
            None
        }
    } else {
        Some((s[0], s.skip(1)))
    }
}

/// The rest of a quoted string, up to and including its closing quote.
pub open spec fn p_str_body(s: Seq<char>) -> Option<(Seq<char>, Seq<char>)>
    decreases s.len(),
{
    if s.len() == 0 {
        None
    } else if s[0] == '"' {
        Some((Seq::empty(), s.skip(1)))
    } else {
        match p_char(s) {
            None => None,
            Some((c, rem)) => match p_str_body(rem) {
                None => None,
                Some((cs, rem2)) => Some((seq![c] + cs, rem2)),
            },
        }
    }
}

pub proof fn lemma_p_str_body_consumes(s: Seq<char>)
    ensures
        p_str_body(s) is Some ==> p_str_body(s)->Some_0.1.len() < s.len(),
    decreases s.len(),
{
    if s.len() == 0 || s[0] == '"' {
    } else {
        match p_char(s) {
            None => {},
            Some((c, rem)) => {
                lemma_p_str_body_consumes(rem);
            },
        }
    }
}

/// A quoted string.
pub open spec fn p_string(s: Seq<char>) -> Option<(Seq<char>, Seq<char>)> {
    if s.len() > 0 && s[0] == '"' {
        p_str_body(s.skip(1))
    } else {
        None
    }
}

pub proof fn lemma_p_string_consumes(s: Seq<char>)
    ensures
        p_string(s) is Some ==> p_string(s)->Some_0.1.len() < s.len(),
{
    if s.len() > 0 && s[0] == '"' {
        lemma_p_str_body_consumes(s.skip(1));
    }
}

/// How many decimal digits stand at the front of `s`.
pub open spec fn digits_prefix_len(s: Seq<char>) -> int
    decreases s.len(),
{
    if s.len() > 0 && is_digit(s[0]) {
        1 + digits_prefix_len(s.drop_first())
    } else {
        0
    }
}

pub proof fn lemma_digits_prefix_len_bounds(s: Seq<char>)
    ensures
        0 <= digits_prefix_len(s) <= s.len(),
    decreases s.len(),
{
    if s.len() > 0 && is_digit(s[0]) {
        lemma_digits_prefix_len_bounds(s.drop_first());
    }
}

/// The value of a sequence of decimal digit characters.
pub open spec fn digits_val(ds: Seq<char>) -> int
    decreases ds.len(),
{
    if ds.len() == 0 {
        0
    } else {
        digits_val(ds.drop_last()) * 10 + digit_val(ds.last())
    }
}

/// An unsigned decimal number that fits in `u64`; one or more digits.
pub open spec fn p_num(s: Seq<char>) -> Option<(u64, Seq<char>)> {
    let k = digits_prefix_len(s);
    if k == 0 {
        None
    } else {
        let v = digits_val(s.take(k));
        if v <= u64::MAX {
            Some((v as u64, s.skip(k)))
        } else {
            None
        }
    }
}

pub proof fn lemma_p_num_consumes(s: Seq<char>)
    ensures
        p_num(s) is Some ==> p_num(s)->Some_0.1.len() < s.len(),
{
    lemma_digits_prefix_len_bounds(s);
}

/// One or more comma-separated quoted strings.
pub open spec fn p_strings(s: Seq<char>) -> Option<(Seq<Seq<char>>, Seq<char>)>
    decreases s.len(),
    via p_strings_dec
{
    match p_string(s) {
        None => None,
        Some((v, rem)) => if rem.len() > 0 && rem[0] == ',' {
            match p_strings(rem.skip(1)) {
                None => None,
                Some((vs, rem2)) => Some((seq![v] + vs, rem2)),
            }
        } else {
            Some((seq![v], rem))
        },
    }
}

#[via_fn]
proof fn p_strings_dec(s: Seq<char>) {
    lemma_p_string_consumes(s);
}

pub proof fn lemma_p_strings_consumes(s: Seq<char>)
    ensures
        p_strings(s) is Some ==> p_strings(s)->Some_0.1.len() < s.len(),
    decreases s.len(),
{
    lemma_p_string_consumes(s);
    match p_string(s) {
        None => {},
        Some((v, rem)) => {
            if rem.len() > 0 && rem[0] == ',' {
                lemma_p_strings_consumes(rem.skip(1));
            }
        },
    }
}

/// A bracketed, possibly empty, list of quoted strings.
pub open spec fn p_strlist(s: Seq<char>) -> Option<(Seq<Seq<char>>, Seq<char>)> {
    if s.len() >= 2 && s[0] == '[' && s[1] == ']' {
        Some((Seq::empty(), s.skip(2)))
    } else if s.len() > 0 && s[0] == '[' {
        match p_strings(s.skip(1)) {
            None => None,
            Some((vs, rem)) => if rem.len() > 0 && rem[0] == ']' {
                Some((vs, rem.skip(1)))
            } else {
                None
            },
        }
    } else {
        None
    }
}

pub proof fn lemma_p_strlist_consumes(s: Seq<char>)
    ensures
        p_strlist(s) is Some ==> p_strlist(s)->Some_0.1.len() < s.len(),
{
    if s.len() >= 2 && s[0] == '[' && s[1] == ']' {
    } else if s.len() > 0 && s[0] == '[' {
        lemma_p_strings_consumes(s.skip(1));
    }
}

/// The given literal characters, which must stand at the front of `s`.
pub open spec fn p_lit(s: Seq<char>, lit: Seq<char>) -> Option<Seq<char>> {
    if lit.len() <= s.len() && s.take(lit.len() as int) == lit {
        Some(s.skip(lit.len() as int))
    } else {
        None
    }
}

/// One shortcut object: its `id`, `name` and `sequence` fields, in that
/// order, then a closing brace.
pub open spec fn p_entry(s: Seq<char>) -> Option<(ShortcutV, Seq<char>)> {
    match p_lit(s, lit_id_key()) {
        None => None,
        Some(s1) => match p_num(s1) {
            None => None,
            Some((id, s2)) => match p_lit(s2, lit_name_key()) {
                None => None,
                Some(s3) => match p_string(s3) {
                    None => None,
                    Some((name, s4)) => match p_lit(s4, lit_sequence_key()) {
                        None => None,
                        Some(s5) => match p_strlist(s5) {
                            None => None,
                            Some((sq, s6)) => if s6.len() > 0 && s6[0] == '}' {
                                Some((ShortcutV { id, name, sequence: sq }, s6.skip(1)))
                            } else {
                                None
                            },
                        },
                    },
                },
            },
        },
    }
}

pub proof fn lemma_p_entry_consumes(s: Seq<char>)
    ensures
        p_entry(s) is Some ==> p_entry(s)->Some_0.1.len() < s.len(),
{
    match p_lit(s, lit_id_key()) {
        None => {},
        Some(s1) => {
            lemma_p_num_consumes(s1);
            match p_num(s1) {
                None => {},
                Some((id, s2)) => match p_lit(s2, lit_name_key()) {
                    None => {},
                    Some(s3) => {
                        lemma_p_string_consumes(s3);
                        match p_string(s3) {
                            None => {},
                            Some((name, s4)) => match p_lit(s4, lit_sequence_key()) {
                                None => {},
                                Some(s5) => {
                                    lemma_p_strlist_consumes(s5);
                                },
                            },
                        }
                    },
                },
            }
        },
    }
}

/// One or more comma-separated shortcut objects.
pub open spec fn p_entries(s: Seq<char>) -> Option<(Seq<ShortcutV>, Seq<char>)>
    decreases s.len(),
    via p_entries_dec
{
    match p_entry(s) {
        None => None,
        Some((e, rem)) => if rem.len() > 0 && rem[0] == ',' {
            match p_entries(rem.skip(1)) {
                None => None,
                Some((es, rem2)) => Some((seq![e] + es, rem2)),
            }
        } else {
            Some((seq![e], rem))
        },
    }
}

#[via_fn]
proof fn p_entries_dec(s: Seq<char>) {
    lemma_p_entry_consumes(s);
}

/// A whole document: a bracketed, possibly empty, array of shortcut
/// objects, with nothing after it.
pub open spec fn p_doc(s: Seq<char>) -> Option<Seq<ShortcutV>> {
    if s.len() == 2 && s[0] == '[' && s[1] == ']' {
        Some(Seq::empty())
    } else if s.len() > 0 && s[0] == '[' {
        match p_entries(s.skip(1)) {
            None => None,
            Some((es, rem)) => if rem.len() == 1 && rem[0] == ']' {
                Some(es)
            } else {
                None
            },
        }
    } else {
        None
    }
}

// ---------------------------------------------------------------------------
// The executable encoder.
// ---------------------------------------------------------------------------

fn push_decimal(out: &mut Vec<char>, n: u64)
    ensures
        final(out)@ == old(out)@ + dec_chars(n as nat),
    decreases n,
{
    if n < 10 {
        out.push(((48 + n as u8)) as char);
    } else {
        push_decimal(out, n / 10);
        out.push((48 + (n % 10) as u8) as char);
        proof {
            assert(final(out)@ =~= old(out)@ + dec_chars(n as nat));
        }
    }
}

fn hex_digit(d: u8) -> (r: char)
    requires
        d < 16,
    ensures
        r == spec_hex_digit(d as int),
{
    if d < 10 {
        (48 + d) as char
    } else {
        (87 + d) as char
    }
}

fn push_enc_char(out: &mut Vec<char>, c: char)
    ensures
        final(out)@ == old(out)@ + enc_char(c),
{
    if c == '"' {
        out.push('\\');
        out.push('"');
    } else if c == '\\' {
        out.push('\\');
        out.push('\\');
    } else if (c as u32) < 32 {
        let code = c as u32;
        out.push('\\');
        out.push('u');
        out.push('0');
        out.push('0');
        out.push(hex_digit((code / 16) as u8));
        out.push(hex_digit((code % 16) as u8));
    } else {
        out.push(c);
    }
    proof {
        assert(final(out)@ =~= old(out)@ + enc_char(c));
    }
}

fn push_string(out: &mut Vec<char>, s: &str)
    ensures
        final(out)@ == old(out)@ + string_chars(s@),
{
    let cs = chars_of_str(s);
    out.push('"');
    let mut i: usize = 0;
    while i < cs.len()
        invariant
            cs@ == s@,
            i <= cs@.len(),
            out@ == old(out)@ + seq!['"'] + str_body_chars(s@.subrange(0, i as int)),
        decreases cs@.len() - i,
    {
        proof {
            lemma_str_body_snoc(s@.subrange(0, i as int + 1));
            assert(s@.subrange(0, i as int + 1).drop_last() =~= s@.subrange(0, i as int));
        }
        push_enc_char(out, cs[i]);
        i += 1;
    }
    proof {
        assert(s@.subrange(0, s@.len() as int) =~= s@);
    }
    out.push('"');
    proof {
        assert(final(out)@ =~= old(out)@ + string_chars(s@));
    }
}

/// Splitting the last character off the body of an encoded string.
proof fn lemma_str_body_snoc(s: Seq<char>)
    requires
        s.len() > 0,
    ensures
        str_body_chars(s) == str_body_chars(s.drop_last()) + enc_char(s.last()),
    decreases s.len(),
{
    if s.len() == 1 {
        assert(s.drop_first() =~= Seq::empty());
        assert(s.drop_last() =~= Seq::empty());
        assert(str_body_chars(s) =~= str_body_chars(s.drop_last()) + enc_char(s.last()));
    } else {
        lemma_str_body_snoc(s.drop_first());
        assert(s.drop_first().drop_last() =~= s.drop_last().drop_first());
        assert(s.drop_last().len() > 0);
        assert(str_body_chars(s.drop_last()) == enc_char(s[0]) + str_body_chars(
            s.drop_last().drop_first(),
        ));
        assert(str_body_chars(s) =~= str_body_chars(s.drop_last()) + enc_char(s.last()));
    }
}

fn push_strlist(out: &mut Vec<char>, l: &Vec<String>)
    ensures
        final(out)@ == old(out)@ + strlist_chars(l.deep_view()),
{
    out.push('[');
    let mut i: usize = 0;
    while i < l.len()
        invariant
            i <= l@.len(),
            out@ == old(out)@ + seq!['['] + strings_chars(l.deep_view().subrange(0, i as int))
                + if 0 < i < l@.len() { seq![','] } else { Seq::<char>::empty() },
        decreases l@.len() - i,
    {
        push_string(out, l[i].as_str());
        i += 1;
        if i < l.len() {
            out.push(',');
        }
        proof {
            lemma_strings_snoc(l.deep_view().subrange(0, i as int));
            assert(l.deep_view().subrange(0, i as int).drop_last() =~= l.deep_view().subrange(
                0,
                i as int - 1,
            ));
            assert(out@ =~= old(out)@ + seq!['['] + strings_chars(
                l.deep_view().subrange(0, i as int),
            ) + if 0 < i < l@.len() {
                seq![',']
            } else {
                Seq::<char>::empty()
            });
        }
    }
    out.push(']');
    proof {
        assert(l.deep_view().subrange(0, l@.len() as int) =~= l.deep_view());
        assert(final(out)@ =~= old(out)@ + strlist_chars(l.deep_view()));
    }
}

/// Splitting the last string off a comma-separated string list.
proof fn lemma_strings_snoc(l: Seq<Seq<char>>)
    requires
        l.len() > 0,
    ensures
        strings_chars(l) == if l.len() == 1 {
            string_chars(l.last())
        } else {
            strings_chars(l.drop_last()) + seq![','] + string_chars(l.last())
        },
    decreases l.len(),
{
    if l.len() == 1 {
    } else if l.len() == 2 {
        assert(l.drop_first().len() == 1);
        assert(l.drop_first()[0] == l.last());
        assert(strings_chars(l.drop_first()) == string_chars(l.last()));
        assert(l.drop_last() =~= seq![l[0]]);
        assert(strings_chars(l.drop_last()) == string_chars(l[0]));
        assert(strings_chars(l) == string_chars(l[0]) + seq![','] + strings_chars(l.drop_first()));
    } else {
        lemma_strings_snoc(l.drop_first());
        assert(l.drop_first().drop_last() =~= l.drop_last().drop_first());
        assert(l.drop_first().last() == l.last());
        assert(l.drop_last().len() > 1);
        assert(strings_chars(l.drop_last()) == string_chars(l[0]) + seq![','] + strings_chars(
            l.drop_last().drop_first(),
        ));
        assert(strings_chars(l) == string_chars(l[0]) + seq![','] + strings_chars(l.drop_first()));
        assert(strings_chars(l.drop_first()) == strings_chars(l.drop_last().drop_first())
            + seq![','] + string_chars(l.last()));
        let a = string_chars(l[0]);
        let m = seq![','];
        let b = strings_chars(l.drop_last().drop_first());
        let c = string_chars(l.last());
        assert(a + m + (b + m + c) =~= (a + m + b) + m + c);
        assert(strings_chars(l) == strings_chars(l.drop_last()) + seq![','] + string_chars(
            l.last(),
        ));
    }
}

fn push_entry(out: &mut Vec<char>, e: &Shortcut)
    ensures
        final(out)@ == old(out)@ + entry_chars(e@),
{
    out.push('{');
    out.push('"');
    out.push('i');
    out.push('d');
    out.push('"');
    out.push(':');
    push_decimal(out, e.id);
    out.push(',');
    out.push('"');
    out.push('n');
    out.push('a');
    out.push('m');
    out.push('e');
    out.push('"');
    out.push(':');
    push_string(out, e.name.as_str());
    out.push(',');
    out.push('"');
    out.push('s');
    out.push('e');
    out.push('q');
    out.push('u');
    out.push('e');
    out.push('n');
    out.push('c');
    out.push('e');
    out.push('"');
    out.push(':');
    push_strlist(out, &e.sequence);
    out.push('}');
    proof {
        assert(final(out)@ =~= old(out)@ + entry_chars(e@));
    }
}

/// Splitting the last entry off a comma-separated entry list.
proof fn lemma_entries_snoc(l: Seq<ShortcutV>)
    requires
        l.len() > 0,
    ensures
        entries_chars(l) == if l.len() == 1 {
            entry_chars(l.last())
        } else {
            entries_chars(l.drop_last()) + seq![','] + entry_chars(l.last())
        },
    decreases l.len(),
{
    if l.len() == 1 {
    } else if l.len() == 2 {
        assert(l.drop_first().len() == 1);
        assert(l.drop_first()[0] == l.last());
        assert(entries_chars(l.drop_first()) == entry_chars(l.last()));
        assert(l.drop_last() =~= seq![l[0]]);
        assert(entries_chars(l.drop_last()) == entry_chars(l[0]));
        assert(entries_chars(l) == entry_chars(l[0]) + seq![','] + entries_chars(l.drop_first()));
    } else {
        lemma_entries_snoc(l.drop_first());
        assert(l.drop_first().drop_last() =~= l.drop_last().drop_first());
        assert(l.drop_first().last() == l.last());
        assert(l.drop_last().len() > 1);
        assert(entries_chars(l.drop_last()) == entry_chars(l[0]) + seq![','] + entries_chars(
            l.drop_last().drop_first(),
        ));
        assert(entries_chars(l) == entry_chars(l[0]) + seq![','] + entries_chars(l.drop_first()));
        assert(entries_chars(l.drop_first()) == entries_chars(l.drop_last().drop_first())
            + seq![','] + entry_chars(l.last()));
        let a = entry_chars(l[0]);
        let m = seq![','];
        let b = entries_chars(l.drop_last().drop_first());
        let c = entry_chars(l.last());
        assert(a + m + (b + m + c) =~= (a + m + b) + m + c);
        assert(entries_chars(l) == entries_chars(l.drop_last()) + seq![','] + entry_chars(
            l.last(),
        ));
    }
}

/// The canonical document for a shortcut list, as the characters of a string.
pub fn encode_document(shortcuts: &Vec<Shortcut>) -> (r: String)
    ensures
        r@ == doc_chars(shortcuts.deep_view()),
{
    let mut out: Vec<char> = Vec::new();
    out.push('[');
    let mut i: usize = 0;
    while i < shortcuts.len()
        invariant
            i <= shortcuts@.len(),
            out@ == seq!['['] + entries_chars(shortcuts.deep_view().subrange(0, i as int)) + if 0
                < i < shortcuts@.len() {
                seq![',']
            } else {
                Seq::<char>::empty()
            },
        decreases shortcuts@.len() - i,
    {
        push_entry(&mut out, &shortcuts[i]);
        i += 1;
        if i < shortcuts.len() {
            out.push(',');
        }
        proof {
            lemma_entries_snoc(shortcuts.deep_view().subrange(0, i as int));
            assert(shortcuts.deep_view().subrange(0, i as int).drop_last()
                =~= shortcuts.deep_view().subrange(0, i as int - 1));
            assert(out@ =~= seq!['['] + entries_chars(shortcuts.deep_view().subrange(0, i as int))
                + if 0 < i < shortcuts@.len() {
                seq![',']
            } else {
                Seq::<char>::empty()
            });
        }
    }
    out.push(']');
    proof {
        assert(shortcuts.deep_view().subrange(0, shortcuts@.len() as int)
            =~= shortcuts.deep_view());
        assert(out@ =~= doc_chars(shortcuts.deep_view()));
    }
    string_from_chars(&out)
}

// ---------------------------------------------------------------------------
// The executable parser. Each function mirrors the spec parser on the
// characters from position `i` on, and returns the parsed value with the
// position after it.
// ---------------------------------------------------------------------------

/// Relies on `char::from_u32`: every value below 0xD800, or between 0xE000
/// and 0x10FFFF, is a valid scalar value and converts to the character with
/// that code.
#[verifier::external_body]
fn char_from_u32(v: u32) -> (r: char)
    requires
        v < 0xD800 || (0xE000 <= v && v <= 0x10FFFF),
    ensures
        r == (v as char),
{
    char::from_u32(v).unwrap_or('\u{0}')
}

fn is_hex_char(c: char) -> (r: bool)
    ensures
        r == is_hex(c),
{
    ('0' <= c && c <= '9') || ('a' <= c && c <= 'f') || ('A' <= c && c <= 'F')
}

fn hex_value(c: char) -> (r: u32)
    requires
        is_hex(c),
    ensures
        r as int == hex_val(c),
{
    if '0' <= c && c <= '9' {
        c as u32 - 48
    } else if 'a' <= c && c <= 'f' {
        c as u32 - 87
    } else {
        c as u32 - 55
    }
}

fn parse_one_char(s: &Vec<char>, i: usize) -> (r: Option<(char, usize)>)
    requires
        i <= s@.len(),
    ensures
        match r {
            Some((c, j)) => i < j <= s@.len() && p_char(s@.skip(i as int)) == Some((
                c,
                s@.skip(j as int),
            )),
            None => p_char(s@.skip(i as int)) is None,
        },
{
    let ghost t = s@.skip(i as int);
    if i == s.len() || s[i] == '"' {
        return None;
    }
    if s[i] != '\\' {
        proof {
            assert(t.skip(1) =~= s@.skip(i as int + 1));
        }
        return Some((s[i], i + 1));
    }
    if s.len() - i < 2 {
        return None;
    }
    let e = s[i + 1];
    proof {
        assert(t[1] == e);
        assert(t.skip(2) =~= s@.skip(i as int + 2));
    }
    if e == '"' {
        Some(('"', i + 2))
    } else if e == '\\' {
        Some(('\\', i + 2))
    } else if e == '/' {
        Some(('/', i + 2))
    } else if e == 'n' {
        Some(('\n', i + 2))
    } else if e == 't' {
        Some(('\t', i + 2))
    } else if e == 'r' {
        Some(('\r', i + 2))
    } else if e == 'b' {
        Some(('\u{8}', i + 2))
    } else if e == 'f' {
        Some(('\u{c}', i + 2))
    } else if e == 'u' {
        if s.len() - i < 6 {
            return None;
        }
        proof {
            assert(t[2] == s@[i as int + 2]);
            assert(t[3] == s@[i as int + 3]);
            assert(t[4] == s@[i as int + 4]);
            assert(t[5] == s@[i as int + 5]);
        }
        if !(is_hex_char(s[i + 2]) && is_hex_char(s[i + 3]) && is_hex_char(s[i + 4])
            && is_hex_char(s[i + 5])) {
            return None;
        }
        let v = hex_value(s[i + 2]) * 4096 + hex_value(s[i + 3]) * 256 + hex_value(s[i + 4]) * 16
            + hex_value(s[i + 5]);
        if 0xD800 <= v && v < 0xE000 {
            return None;
        }
        proof {
            assert(t.skip(6) =~= s@.skip(i as int + 6));
        }
        Some((char_from_u32(v), i + 6))
    } else {
        None
    }
}

fn parse_str_body(s: &Vec<char>, i: usize) -> (r: Option<(Vec<char>, usize)>)
    requires
        i <= s@.len(),
    ensures
        match r {
            Some((v, j)) => i < j <= s@.len() && p_str_body(s@.skip(i as int)) == Some((
                v@,
                s@.skip(j as int),
            )),
            None => p_str_body(s@.skip(i as int)) is None,
        },
    decreases s@.len() - i,
{
    let ghost t = s@.skip(i as int);
    if i == s.len() {
        return None;
    }
    if s[i] == '"' {
        proof {
            assert(t.skip(1) =~= s@.skip(i as int + 1));
            assert(p_str_body(t) == Some((Seq::<char>::empty(), s@.skip(i as int + 1))));
        }
        let v: Vec<char> = Vec::new();
        proof {
            assert(v@ =~= Seq::<char>::empty());
        }
        return Some((v, i + 1));
    }
    match parse_one_char(s, i) {
        None => None,
        Some((c, j)) => {
            match parse_str_body(s, j) {
                None => None,
                Some((mut cs, k)) => {
                    let ghost prev = cs@;
                    cs.insert(0, c);
                    proof {
                        assert(cs@ =~= seq![c] + prev);
                    }
                    Some((cs, k))
                },
            }
        },
    }
}

pub(crate) fn parse_string(s: &Vec<char>, i: usize) -> (r: Option<(Vec<char>, usize)>)
    requires
        i <= s@.len(),
    ensures
        match r {
            Some((v, j)) => i < j <= s@.len() && p_string(s@.skip(i as int)) == Some((
                v@,
                s@.skip(j as int),
            )),
            None => p_string(s@.skip(i as int)) is None,
        },
{
    let ghost t = s@.skip(i as int);
    if i == s.len() || s[i] != '"' {
        return None;
    }
    proof {
        assert(t.skip(1) =~= s@.skip(i as int + 1));
    }
    parse_str_body(s, i + 1)
}

fn parse_lit(s: &Vec<char>, i: usize, lit: &Vec<char>) -> (r: Option<usize>)
    requires
        i <= s@.len(),
    ensures
        match r {
            Some(j) => i <= j <= s@.len() && p_lit(s@.skip(i as int), lit@) == Some(
                s@.skip(j as int),
            ),
            None => p_lit(s@.skip(i as int), lit@) is None,
        },
{
    let ghost t = s@.skip(i as int);
    if s.len() - i < lit.len() {
        return None;
    }
    let n = s.len();
    let mut m: usize = 0;
    while m < lit.len()
        invariant
            i <= s@.len(),
            n == s@.len(),
            i + lit@.len() <= s@.len(),
            m <= lit@.len(),
            forall|x: int| 0 <= x < m ==> s@.skip(i as int)[x] == lit@[x],
        decreases lit@.len() - m,
    {
        if s[i + m] != lit[m] {
            proof {
                assert(s@.skip(i as int)[m as int] != lit@[m as int]);
                assert(s@.skip(i as int).take(lit@.len() as int)[m as int] != lit@[m as int]);
            }
            return None;
        }
        proof {
            assert(s@.skip(i as int)[m as int] == lit@[m as int]);
        }
        m += 1;
    }
    proof {
        assert(t.take(lit@.len() as int) =~= lit@);
        assert(t.skip(lit@.len() as int) =~= s@.skip(i as int + lit@.len() as int));
    }
    Some(i + lit.len())
}

proof fn lemma_digits_prefix_len_of(t: Seq<char>, m: int)
    requires
        0 <= m <= t.len(),
        forall|x: int| 0 <= x < m ==> is_digit(#[trigger] t[x]),
        m == t.len() || !is_digit(t[m]),
    ensures
        digits_prefix_len(t) == m,
    decreases m,
{
    if m == 0 {
    } else {
        assert(is_digit(t[0]));
        lemma_digits_prefix_len_of(t.drop_first(), m - 1);
    }
}

proof fn lemma_digits_val_nonneg(t: Seq<char>)
    requires
        forall|x: int| 0 <= x < t.len() ==> is_digit(#[trigger] t[x]),
    ensures
        digits_val(t) >= 0,
    decreases t.len(),
{
    if t.len() > 0 {
        lemma_digits_val_nonneg(t.drop_last());
        assert(is_digit(t.last()));
        assert(digit_val(t.last()) >= 0);
        assert(digits_val(t.drop_last()) * 10 >= 0);
    }
}

proof fn lemma_digits_val_mono(t: Seq<char>, a: int, b: int)
    requires
        0 <= a <= b <= t.len(),
        forall|x: int| 0 <= x < b ==> is_digit(#[trigger] t[x]),
    ensures
        digits_val(t.take(a)) <= digits_val(t.take(b)),
    decreases b - a,
{
    if a < b {
        lemma_digits_val_mono(t, a, b - 1);
        let tb = t.take(b);
        assert(tb.drop_last() =~= t.take(b - 1));
        assert(is_digit(tb.last()));
        lemma_digits_val_nonneg(t.take(b - 1));
        assert(digits_val(t.take(b - 1)) * 10 >= digits_val(t.take(b - 1)));
        assert(digits_val(tb) >= digits_val(t.take(b - 1)));
    }
}

pub(crate) fn parse_num(s: &Vec<char>, i: usize) -> (r: Option<(u64, usize)>)
    requires
        i <= s@.len(),
    ensures
        match r {
            Some((n, j)) => i < j <= s@.len() && p_num(s@.skip(i as int)) == Some((
                n,
                s@.skip(j as int),
            )),
            None => p_num(s@.skip(i as int)) is None,
        },
{
    let ghost t = s@.skip(i as int);
    let mut j: usize = i;
    while j < s.len() && '0' <= s[j] && s[j] <= '9'
        invariant
            i <= j <= s@.len(),
            forall|x: int| 0 <= x < j - i ==> is_digit(#[trigger] s@.skip(i as int)[x]),
        decreases s@.len() - j,
    {
        proof {
            assert(s@.skip(i as int)[j - i] == s@[j as int]);
        }
        j += 1;
    }
    proof {
        if j < s@.len() {
            assert(s@.skip(i as int)[j - i] == s@[j as int]);
            assert(!is_digit(s@.skip(i as int)[j - i]));
        }
        lemma_digits_prefix_len_of(t, j - i);
        assert(digits_prefix_len(t) == j - i);
    }
    if j == i {
        return None;
    }
    let ghost k = j - i;
    let mut acc: u64 = 0;
    let mut m: usize = i;
    while m < j
        invariant
            i <= m <= j <= s@.len(),
            k == j - i,
            0 < k,
            digits_prefix_len(t) == k,
            forall|x: int| 0 <= x < k ==> is_digit(#[trigger] t[x]),
            t == s@.skip(i as int),
            acc as int == digits_val(t.take(m - i)),
        decreases j - m,
    {
        proof {
            assert(t[m - i] == s@[m as int]);
            assert(is_digit(t[m - i]));
        }
        let d: u64 = (s[m] as u32 - 48) as u64;
        proof {
            assert(d as int == digit_val(t[m - i]));
            assert(t.take(m - i + 1).drop_last() =~= t.take(m - i));
            assert(t.take(m - i + 1).last() == t[m - i]);
            assert(digits_val(t.take(m - i + 1)) == digits_val(t.take(m - i)) * 10 + d as int);
        }
        let acc10 = match acc.checked_mul(10) {
            Some(a) => a,
            None => {
                proof {
                    lemma_digits_val_nonneg(t.take(m - i));
                    assert(digits_val(t.take(m - i + 1)) > u64::MAX);
                    lemma_digits_val_mono(t, m - i + 1, k);
                    assert(digits_val(t.take(k)) > u64::MAX);
                }
                return None;
            },
        };
        acc = match acc10.checked_add(d) {
            Some(a) => a,
            None => {
                proof {
                    assert(digits_val(t.take(m - i + 1)) > u64::MAX);
                    lemma_digits_val_mono(t, m - i + 1, k);
                    assert(digits_val(t.take(k)) > u64::MAX);
                }
                return None;
            },
        };
        m += 1;
    }
    proof {
        assert(t.take(k) == t.take(m - i));
        assert(digits_val(t.take(k)) == acc as int <= u64::MAX);
        assert(t.skip(k) =~= s@.skip(j as int));
    }
    Some((acc, j))
}

fn parse_strings(s: &Vec<char>, i: usize) -> (r: Option<(Vec<String>, usize)>)
    requires
        i <= s@.len(),
    ensures
        match r {
            Some((v, j)) => i < j <= s@.len() && p_strings(s@.skip(i as int)) == Some((
                v.deep_view(),
                s@.skip(j as int),
            )),
            None => p_strings(s@.skip(i as int)) is None,
        },
    decreases s@.len() - i,
{
    let ghost t = s@.skip(i as int);
    match parse_string(s, i) {
        None => None,
        Some((v, j)) => {
            let head = string_from_chars(&v);
            if j < s.len() && s[j] == ',' {
                proof {
                    assert(s@.skip(j as int)[0] == s@[j as int]);
                    assert(s@.skip(j as int).skip(1) =~= s@.skip(j as int + 1));
                }
                match parse_strings(s, j + 1) {
                    None => None,
                    Some((mut vs, l)) => {
                        let ghost prev = vs.deep_view();
                        vs.insert(0, head);
                        proof {
                            assert(vs.deep_view() =~= seq![v@] + prev);
                        }
                        Some((vs, l))
                    },
                }
            } else {
                proof {
                    if j < s@.len() {
                        assert(s@.skip(j as int)[0] == s@[j as int]);
                    }
                    assert(s@.skip(j as int).len() == 0 || s@.skip(j as int)[0] != ',');
                }
                let rv = vec![head];
                proof {
                    assert(rv.deep_view() =~= seq![v@]);
                }
                Some((rv, j))
            }
        },
    }
}

fn parse_strlist(s: &Vec<char>, i: usize) -> (r: Option<(Vec<String>, usize)>)
    requires
        i <= s@.len(),
    ensures
        match r {
            Some((v, j)) => i < j <= s@.len() && p_strlist(s@.skip(i as int)) == Some((
                v.deep_view(),
                s@.skip(j as int),
            )),
            None => p_strlist(s@.skip(i as int)) is None,
        },
{
    let ghost t = s@.skip(i as int);
    if i == s.len() || s[i] != '[' {
        return None;
    }
    proof {
        assert(t[0] == '[');
    }
    if i + 1 < s.len() && s[i + 1] == ']' {
        proof {
            assert(t[1] == ']');
            assert(t.skip(2) =~= s@.skip(i as int + 2));
        }
        let rv: Vec<String> = Vec::new();
        proof {
            assert(rv.deep_view() =~= Seq::<Seq<char>>::empty());
        }
        return Some((rv, i + 2));
    }
    proof {
        if i + 1 < s@.len() {
            assert(t[1] == s@[i as int + 1]);
        }
        assert(!(t.len() >= 2 && t[0] == '[' && t[1] == ']'));
        assert(t.skip(1) =~= s@.skip(i as int + 1));
    }
    match parse_strings(s, i + 1) {
        None => None,
        Some((vs, j)) => {
            if j < s.len() && s[j] == ']' {
                proof {
                    assert(s@.skip(j as int)[0] == ']');
                    assert(s@.skip(j as int).skip(1) =~= s@.skip(j as int + 1));
                }
                Some((vs, j + 1))
            } else {
                proof {
                    if j < s@.len() {
                        assert(s@.skip(j as int)[0] == s@[j as int]);
                    }
                }
                None
            }
        },
    }
}

fn lit_vec_id_key() -> (r: Vec<char>)
    ensures
        r@ == lit_id_key(),
{
    let mut v: Vec<char> = Vec::new();
    v.push('{');
    v.push('"');
    v.push('i');
    v.push('d');
    v.push('"');
    v.push(':');
    proof {
        assert(v@ =~= lit_id_key());
    }
    v
}

fn lit_vec_name_key() -> (r: Vec<char>)
    ensures
        r@ == lit_name_key(),
{
    let mut v: Vec<char> = Vec::new();
    v.push(',');
    v.push('"');
    v.push('n');
    v.push('a');
    v.push('m');
    v.push('e');
    v.push('"');
    v.push(':');
    proof {
        assert(v@ =~= lit_name_key());
    }
    v
}

fn lit_vec_sequence_key() -> (r: Vec<char>)
    ensures
        r@ == lit_sequence_key(),
{
    let mut v: Vec<char> = Vec::new();
    v.push(',');
    v.push('"');
    v.push('s');
    v.push('e');
    v.push('q');
    v.push('u');
    v.push('e');
    v.push('n');
    v.push('c');
    v.push('e');
    v.push('"');
    v.push(':');
    proof {
        assert(v@ =~= lit_sequence_key());
    }
    v
}

fn parse_entry(s: &Vec<char>, i: usize) -> (r: Option<(Shortcut, usize)>)
    requires
        i <= s@.len(),
    ensures
        match r {
            Some((e, j)) => i < j <= s@.len() && p_entry(s@.skip(i as int)) == Some((
                e@,
                s@.skip(j as int),
            )),
            None => p_entry(s@.skip(i as int)) is None,
        },
{
    let ghost t = s@.skip(i as int);
    let lit1 = lit_vec_id_key();
    let j1 = match parse_lit(s, i, &lit1) {
        Some(j) => j,
        None => {
            return None;
        },
    };
    let (id, j2) = match parse_num(s, j1) {
        Some(x) => x,
        None => {
            return None;
        },
    };
    let lit2 = lit_vec_name_key();
    let j3 = match parse_lit(s, j2, &lit2) {
        Some(j) => j,
        None => {
            return None;
        },
    };
    let (name_chars, j4) = match parse_string(s, j3) {
        Some(x) => x,
        None => {
            return None;
        },
    };
    let lit3 = lit_vec_sequence_key();
    let j5 = match parse_lit(s, j4, &lit3) {
        Some(j) => j,
        None => {
            return None;
        },
    };
    let (steps, j6) = match parse_strlist(s, j5) {
        Some(x) => x,
        None => {
            return None;
        },
    };
    if j6 < s.len() && s[j6] == '}' {
        proof {
            assert(s@.skip(j6 as int)[0] == '}');
            assert(s@.skip(j6 as int).skip(1) =~= s@.skip(j6 as int + 1));
        }
        let name = string_from_chars(&name_chars);
        let e = Shortcut { id, name, sequence: steps };
        proof {
            assert(e@ == ShortcutV { id: id, name: name_chars@, sequence: steps.deep_view() });
        }
        Some((e, j6 + 1))
    } else {
        proof {
            if j6 < s@.len() {
                assert(s@.skip(j6 as int)[0] == s@[j6 as int]);
            }
        }
        None
    }
}

fn parse_entries(s: &Vec<char>, i: usize) -> (r: Option<(Vec<Shortcut>, usize)>)
    requires
        i <= s@.len(),
    ensures
        match r {
            Some((v, j)) => i < j <= s@.len() && p_entries(s@.skip(i as int)) == Some((
                v.deep_view(),
                s@.skip(j as int),
            )),
            None => p_entries(s@.skip(i as int)) is None,
        },
    decreases s@.len() - i,
{
    match parse_entry(s, i) {
        None => None,
        Some((e, j)) => {
            if j < s.len() && s[j] == ',' {
                proof {
                    assert(s@.skip(j as int)[0] == s@[j as int]);
                    assert(s@.skip(j as int).skip(1) =~= s@.skip(j as int + 1));
                }
                match parse_entries(s, j + 1) {
                    None => None,
                    Some((mut es, l)) => {
                        let ghost prev = es.deep_view();
                        let ghost ev = e@;
                        es.insert(0, e);
                        proof {
                            assert(es.deep_view() =~= seq![ev] + prev);
                        }
                        Some((es, l))
                    },
                }
            } else {
                proof {
                    if j < s@.len() {
                        assert(s@.skip(j as int)[0] == s@[j as int]);
                    }
                    assert(s@.skip(j as int).len() == 0 || s@.skip(j as int)[0] != ',');
                }
                let ghost ev = e@;
                let rv = vec![e];
                proof {
                    assert(rv.deep_view() =~= seq![ev]);
                }
                Some((rv, j))
            }
        },
    }
}

/// Reads a document back into the shortcut list it describes, or nothing
/// when the text is not a canonical document.
pub fn parse_document(doc: &str) -> (r: Option<Vec<Shortcut>>)
    ensures
        match r {
            Some(v) => p_doc(doc@) == Some(v.deep_view()),
            None => p_doc(doc@) is None,
        },
{
    let s = chars_of_str(doc);
    if s.len() == 2 && s[0] == '[' && s[1] == ']' {
        let rv: Vec<Shortcut> = Vec::new();
        proof {
            assert(rv.deep_view() =~= Seq::<ShortcutV>::empty());
        }
        return Some(rv);
    }
    if s.len() == 0 || s[0] != '[' {
        return None;
    }
    proof {
        assert(s@.skip(1) =~= doc@.skip(1));
    }
    match parse_entries(&s, 1) {
        None => None,
        Some((es, j)) => {
            if j < s.len() && s.len() - j == 1 && s[j] == ']' {
                proof {
                    assert(s@.skip(j as int).len() == 1);
                    assert(s@.skip(j as int)[0] == ']');
                }
                Some(es)
            } else {
                proof {
                    assert(s@.skip(j as int).len() == s@.len() - j);
                    if j < s@.len() {
                        assert(s@.skip(j as int)[0] == s@[j as int]);
                    }
                }
                None
            }
        },
    }
}

} // verus!

verus! {

// ---------------------------------------------------------------------------
// The round-trip law: parsing a canonical document gives back exactly the
// list that was encoded.
// ---------------------------------------------------------------------------

proof fn lemma_rt_lit(lit: Seq<char>, rest: Seq<char>)
    ensures
        p_lit(lit + rest, lit) == Some(rest),
{
    assert((lit + rest).take(lit.len() as int) =~= lit);
    assert((lit + rest).skip(lit.len() as int) =~= rest);
}

proof fn lemma_hex_digit_rt(d: int)
    requires
        0 <= d < 16,
    ensures
        is_hex(spec_hex_digit(d)),
        hex_val(spec_hex_digit(d)) == d,
{
}

proof fn lemma_rt_char(c: char, rest: Seq<char>)
    ensures
        p_char(enc_char(c) + rest) == Some((c, rest)),
{
    let s = enc_char(c) + rest;
    if c == '"' {
        assert(s.skip(2) =~= rest);
    } else if c == '\\' {
        assert(s.skip(2) =~= rest);
    } else if (c as int) < 32 {
        let hi = c as int / 16;
        let lo = c as int % 16;
        lemma_hex_digit_rt(hi);
        lemma_hex_digit_rt(lo);
        assert(s[0] == '\\' && s[1] == 'u' && s[2] == '0' && s[3] == '0');
        assert(s[4] == spec_hex_digit(hi) && s[5] == spec_hex_digit(lo));
        assert(hex_val(s[2]) == 0 && hex_val(s[3]) == 0);
        let v = hex_val(s[2]) * 4096 + hex_val(s[3]) * 256 + hex_val(s[4]) * 16 + hex_val(s[5]);
        assert(v == hi * 16 + lo);
        assert(v == c as int);
        assert(!(0xD800 <= v && v < 0xE000));
        assert((v as char) == c);
        assert(s.skip(6) =~= rest);
    } else {
        assert(s[0] == c && c != '"' && c != '\\');
        assert(s.skip(1) =~= rest);
    }
}

proof fn lemma_rt_str_body(v: Seq<char>, rest: Seq<char>)
    ensures
        p_str_body(str_body_chars(v) + seq!['"'] + rest) == Some((v, rest)),
    decreases v.len(),
{
    let s = str_body_chars(v) + seq!['"'] + rest;
    if v.len() == 0 {
        assert(s[0] == '"');
        assert(s.skip(1) =~= rest);
        assert(v =~= Seq::<char>::empty());
    } else {
        let tail = str_body_chars(v.drop_first()) + seq!['"'] + rest;
        assert(s =~= enc_char(v[0]) + tail);
        lemma_rt_char(v[0], tail);
        assert(enc_char(v[0])[0] != '"');
        assert(s[0] != '"');
        assert(s.len() > 0);
        lemma_rt_str_body(v.drop_first(), rest);
        assert(p_str_body(s) == Some((seq![v[0]] + v.drop_first(), rest)));
        assert(seq![v[0]] + v.drop_first() =~= v);
    }
}

proof fn lemma_rt_string(v: Seq<char>, rest: Seq<char>)
    ensures
        p_string(string_chars(v) + rest) == Some((v, rest)),
{
    let s = string_chars(v) + rest;
    assert(s[0] == '"');
    assert(s.skip(1) =~= str_body_chars(v) + seq!['"'] + rest);
    lemma_rt_str_body(v, rest);
}

proof fn lemma_dec_chars_digits(n: nat)
    ensures
        dec_chars(n).len() > 0,
        forall|i: int| 0 <= i < dec_chars(n).len() ==> is_digit(#[trigger] dec_chars(n)[i]),
    decreases n,
{
    if n < 10 {
        assert(is_digit(spec_digit(n as int)));
    } else {
        lemma_dec_chars_digits(n / 10);
        assert(is_digit(spec_digit((n % 10) as int)));
    }
}

proof fn lemma_digits_prefix(ds: Seq<char>, rest: Seq<char>)
    requires
        forall|i: int| 0 <= i < ds.len() ==> is_digit(#[trigger] ds[i]),
        rest.len() == 0 || !is_digit(rest[0]),
    ensures
        digits_prefix_len(ds + rest) == ds.len(),
    decreases ds.len(),
{
    let s = ds + rest;
    if ds.len() == 0 {
        assert(s =~= rest);
    } else {
        assert(s[0] == ds[0] && is_digit(s[0]));
        assert(s.drop_first() =~= ds.drop_first() + rest);
        lemma_digits_prefix(ds.drop_first(), rest);
    }
}

proof fn lemma_digits_val_dec(n: nat)
    ensures
        digits_val(dec_chars(n)) == n,
    decreases n,
{
    if n < 10 {
        let ds = dec_chars(n);
        assert(ds == seq![spec_digit(n as int)]);
        assert(ds.len() == 1);
        assert(ds.drop_last() =~= Seq::<char>::empty());
        assert(digits_val(ds.drop_last()) == 0);
        assert(ds.last() == spec_digit(n as int));
        assert(digit_val(spec_digit(n as int)) == n);
        assert(digits_val(ds) == digits_val(ds.drop_last()) * 10 + digit_val(ds.last()));
        assert(digits_val(ds) == n);
    } else {
        lemma_digits_val_dec(n / 10);
        let ds = dec_chars(n);
        assert(ds == dec_chars(n / 10) + seq![spec_digit((n % 10) as int)]);
        assert(ds.drop_last() =~= dec_chars(n / 10));
        assert(digits_val(ds.drop_last()) == digits_val(dec_chars(n / 10)));
        assert(digits_val(ds.drop_last()) == n / 10);
        assert(ds.last() == spec_digit((n % 10) as int));
        assert(digit_val(ds.last()) == n % 10);
        assert(ds.len() > 0);
        assert(digits_val(ds) == digits_val(ds.drop_last()) * 10 + digit_val(ds.last()));
        assert(digits_val(ds) == (n / 10) * 10 + n % 10);
        assert((n / 10) * 10 + n % 10 == n) by (nonlinear_arith);
        assert(digits_val(ds) == n);
    }
}

proof fn lemma_rt_num(n: u64, rest: Seq<char>)
    requires
        rest.len() == 0 || !is_digit(rest[0]),
    ensures
        p_num(dec_chars(n as nat) + rest) == Some((n, rest)),
{
    let ds = dec_chars(n as nat);
    let s = ds + rest;
    lemma_dec_chars_digits(n as nat);
    lemma_digits_prefix(ds, rest);
    assert(digits_prefix_len(s) == ds.len());
    assert(s.take(ds.len() as int) =~= ds);
    lemma_digits_val_dec(n as nat);
    assert(digits_val(s.take(ds.len() as int)) == n);
    assert(s.skip(ds.len() as int) =~= rest);
}

proof fn lemma_rt_strings(l: Seq<Seq<char>>, rest: Seq<char>)
    requires
        l.len() > 0,
        rest.len() > 0,
        rest[0] != ',',
    ensures
        p_strings(strings_chars(l) + rest) == Some((l, rest)),
    decreases l.len(),
{
    let s = strings_chars(l) + rest;
    if l.len() == 1 {
        assert(s =~= string_chars(l[0]) + rest);
        lemma_rt_string(l[0], rest);
        assert(p_strings(s) == Some((seq![l[0]], rest)));
        assert(seq![l[0]] =~= l);
    } else {
        let tail = strings_chars(l.drop_first()) + rest;
        assert(s =~= string_chars(l[0]) + (seq![','] + tail));
        lemma_rt_string(l[0], seq![','] + tail);
        let rem = seq![','] + tail;
        assert(rem[0] == ',');
        assert(rem.skip(1) =~= tail);
        lemma_rt_strings(l.drop_first(), rest);
        assert(p_strings(s) == Some((seq![l[0]] + l.drop_first(), rest)));
        assert(seq![l[0]] + l.drop_first() =~= l);
    }
}

proof fn lemma_rt_strlist(l: Seq<Seq<char>>, rest: Seq<char>)
    ensures
        p_strlist(strlist_chars(l) + rest) == Some((l, rest)),
{
    let s = strlist_chars(l) + rest;
    if l.len() == 0 {
        assert(strings_chars(l) =~= Seq::<char>::empty());
        assert(s[0] == '[' && s[1] == ']');
        assert(s.skip(2) =~= rest);
        assert(l =~= Seq::<Seq<char>>::empty());
    } else {
        let inner = strings_chars(l) + (seq![']'] + rest);
        assert(strings_chars(l) == string_chars(l[0]) + seq![','] + strings_chars(l.drop_first())
            || strings_chars(l) == string_chars(l[0]));
        assert(strings_chars(l)[0] == '"');
        assert(s[0] == '[' && s[1] == '"');
        assert(s.skip(1) =~= inner);
        lemma_rt_strings(l, seq![']'] + rest);
        assert((seq![']'] + rest)[0] == ']');
        assert((seq![']'] + rest).skip(1) =~= rest);
        assert(p_strlist(s) == Some((l, rest)));
    }
}

proof fn lemma_rt_entry(e: ShortcutV, rest: Seq<char>)
    ensures
        p_entry(entry_chars(e) + rest) == Some((e, rest)),
{
    let rem6 = seq!['}'] + rest;
    let rem5 = strlist_chars(e.sequence) + rem6;
    let rem4 = lit_sequence_key() + rem5;
    let rem3 = string_chars(e.name) + rem4;
    let rem2 = lit_name_key() + rem3;
    let rem1 = dec_chars(e.id as nat) + rem2;
    let s = entry_chars(e) + rest;
    assert(s =~= lit_id_key() + rem1);
    lemma_rt_lit(lit_id_key(), rem1);
    assert(p_lit(s, lit_id_key()) == Some(rem1));
    assert(rem2[0] == ',');
    assert(!is_digit(','));
    lemma_rt_num(e.id, rem2);
    assert(p_num(rem1) == Some((e.id, rem2)));
    lemma_rt_lit(lit_name_key(), rem3);
    assert(p_lit(rem2, lit_name_key()) == Some(rem3));
    lemma_rt_string(e.name, rem4);
    assert(p_string(rem3) == Some((e.name, rem4)));
    lemma_rt_lit(lit_sequence_key(), rem5);
    assert(p_lit(rem4, lit_sequence_key()) == Some(rem5));
    lemma_rt_strlist(e.sequence, rem6);
    assert(p_strlist(rem5) == Some((e.sequence, rem6)));
    assert(rem6[0] == '}');
    assert(rem6.skip(1) =~= rest);
    assert(p_entry(s) == Some((ShortcutV { id: e.id, name: e.name, sequence: e.sequence }, rest)));
    assert(ShortcutV { id: e.id, name: e.name, sequence: e.sequence } == e);
}

proof fn lemma_rt_entries(l: Seq<ShortcutV>, rest: Seq<char>)
    requires
        l.len() > 0,
        rest.len() > 0,
        rest[0] != ',',
    ensures
        p_entries(entries_chars(l) + rest) == Some((l, rest)),
    decreases l.len(),
{
    let s = entries_chars(l) + rest;
    if l.len() == 1 {
        assert(s =~= entry_chars(l[0]) + rest);
        lemma_rt_entry(l[0], rest);
        assert(p_entries(s) == Some((seq![l[0]], rest)));
        assert(seq![l[0]] =~= l);
    } else {
        let tail = entries_chars(l.drop_first()) + rest;
        assert(s =~= entry_chars(l[0]) + (seq![','] + tail));
        lemma_rt_entry(l[0], seq![','] + tail);
        let rem = seq![','] + tail;
        assert(rem[0] == ',');
        assert(rem.skip(1) =~= tail);
        lemma_rt_entries(l.drop_first(), rest);
        assert(p_entries(s) == Some((seq![l[0]] + l.drop_first(), rest)));
        assert(seq![l[0]] + l.drop_first() =~= l);
    }
}

/// The round-trip law: parsing the canonical document of any shortcut list
/// yields exactly that list.
pub proof fn lemma_document_round_trip(l: Seq<ShortcutV>)
    ensures
        p_doc(doc_chars(l)) == Some(l),
{
    let s = doc_chars(l);
    if l.len() == 0 {
        assert(entries_chars(l) =~= Seq::<char>::empty());
        assert(s =~= seq!['[', ']']);
        assert(s.len() == 2 && s[0] == '[' && s[1] == ']');
        assert(l =~= Seq::<ShortcutV>::empty());
    } else {
        assert(entries_chars(l) == entry_chars(l[0]) + seq![','] + entries_chars(l.drop_first())
            || entries_chars(l) == entry_chars(l[0]));
        assert(entry_chars(l[0])[0] == '{');
        assert(entries_chars(l)[0] == '{');
        assert(entries_chars(l).len() > 0);
        assert(s.len() > 2);
        assert(s[0] == '[');
        assert(s.skip(1) =~= entries_chars(l) + seq![']']);
        lemma_rt_entries(l, seq![']']);
        assert((seq![']'])[0] == ']');
        assert(p_entries(s.skip(1)) == Some((l, seq![']'])));
        assert(p_doc(s) == Some(l));
    }
}

} // verus!

