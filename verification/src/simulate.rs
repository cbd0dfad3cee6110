//! The input-simulation planner: turns one shortcut sequence into the
//! ordered list of key events to inject. Each step is classified as
//! literal text (typed character by character) or as a key combination
//! (modifiers pressed in order, main keys clicked, modifiers released in
//! reverse order, then a pause). The planner is pure; the OS injection of
//! the planned events is the caller's.

use vstd::prelude::*;

use crate::text::{chars_of_str, spec_ascii_lower, spec_lower_seq, ascii_lower};

verus! {

/// One abstract key on the simulated keyboard.
#[derive(Clone, Copy, PartialEq, Eq, Structural, Debug)]
pub enum Key {
    Control,
    Alt,
    Shift,
    Meta,
    Return,
    Tab,
    Backspace,
    Space,
    Unicode(char),
}

/// One planned injection event, in execution order.
#[derive(Clone, Copy, PartialEq, Eq, Structural, Debug)]
pub enum KeyEvent {
    Press(Key),
    Click(Key),
    Release(Key),
    TypeChar(char),
    Sleep(u64),
}

// ---------------------------------------------------------------------------
// Step classification.
// ---------------------------------------------------------------------------

pub open spec fn contains_char(s: Seq<char>, c: char) -> bool {
    exists|i: int| 0 <= i < s.len() && s[i] == c
}

/// `p` occurs in `s` as a contiguous run.
pub open spec fn contains_seq(s: Seq<char>, p: Seq<char>) -> bool {
    exists|i: int|
        0 <= i && i + p.len() <= s.len() && #[trigger] s.subrange(i, i + p.len() as int) == p
}

/// The modifier names, lower-cased, whose presence makes a step a combo.
pub open spec fn modifier_names() -> Seq<Seq<char>> {
    seq![
        seq!['c', 't', 'r', 'l'],
        seq!['c', 'o', 'n', 't', 'r', 'o', 'l'],
        seq!['s', 'h', 'i', 'f', 't'],
        seq!['a', 'l', 't'],
        seq!['c', 'm', 'd'],
        seq!['c', 'o', 'm', 'm', 'a', 'n', 'd'],
        seq!['m', 'e', 't', 'a'],
    ]
}

/// A modifier name occurs somewhere in the step, case-insensitively.
pub open spec fn has_modifier_substr(s: Seq<char>) -> bool {
    exists|k: int|
        0 <= k < modifier_names().len() && contains_seq(
            spec_lower_seq(s),
            #[trigger] modifier_names()[k],
        )
}

/// The classification rule: a step is literal text exactly when it has no
/// `+` separator and no modifier-name substring (case-insensitive);
/// otherwise it is a key combination.
pub open spec fn is_text_step(s: Seq<char>) -> bool {
    !contains_char(s, '+') && !has_modifier_substr(s)
}

fn vec_contains_char(v: &Vec<char>, c: char) -> (r: bool)
    ensures
        r == contains_char(v@, c),
{
    let mut i: usize = 0;
    while i < v.len()
        invariant
            i <= v@.len(),
            forall|x: int| 0 <= x < i ==> v@[x] != c,
        decreases v@.len() - i,
    {
        if v[i] == c {
            return true;
        }
        i += 1;
    }
    false
}

fn contains_pattern(hay: &Vec<char>, pat: &Vec<char>) -> (r: bool)
    ensures
        r == contains_seq(hay@, pat@),
{
    if pat.len() > hay.len() {
        return false;
    }
    let mut i: usize = 0;
    while i <= hay.len() - pat.len()
        invariant
            pat@.len() <= hay@.len(),
            hay@.len() <= usize::MAX,
            i <= hay@.len() - pat@.len() + 1,
            forall|x: int|
                0 <= x < i ==> #[trigger] hay@.subrange(x, x + pat@.len() as int) != pat@,
        decreases hay@.len() - pat@.len() + 1 - i,
    {
        let mut m: usize = 0;
        while m < pat.len() && hay[i + m] == pat[m]
            invariant
                pat@.len() <= hay@.len(),
                hay@.len() <= usize::MAX,
                i + pat@.len() <= hay@.len(),
                m <= pat@.len(),
                forall|y: int| 0 <= y < m ==> hay@[i + y] == pat@[y],
            decreases pat@.len() - m,
        {
            m += 1;
        }
        if m == pat.len() {
            proof {
                assert(hay@.subrange(i as int, i + pat@.len() as int) =~= pat@);
            }
            return true;
        }
        proof {
            assert(hay@[i + m as int] != pat@[m as int]);
            assert(hay@.subrange(i as int, i + pat@.len() as int)[m as int] == hay@[i + m as int]);
            assert(hay@.subrange(i as int, i + pat@.len() as int) != pat@);
        }
        i += 1;
    }
    proof {
        assert forall|x: int| 0 <= x && x + pat@.len() <= hay@.len() implies #[trigger] hay@
            .subrange(x, x + pat@.len() as int) != pat@ by {}
    }
    false
}

fn lower_vec(v: &Vec<char>) -> (r: Vec<char>)
    ensures
        r@ == spec_lower_seq(v@),
{
    let mut r: Vec<char> = Vec::new();
    let mut i: usize = 0;
    while i < v.len()
        invariant
            i <= v@.len(),
            r@.len() == i,
            forall|x: int| 0 <= x < i ==> r@[x] == spec_ascii_lower(v@[x]),
        decreases v@.len() - i,
    {
        r.push(ascii_lower(v[i]));
        i += 1;
    }
    proof {
        assert(r@ =~= spec_lower_seq(v@));
    }
    r
}

fn pattern_ctrl() -> (r: Vec<char>)
    ensures
        r@ == modifier_names()[0],
{
    let mut v: Vec<char> = Vec::new();
    v.push('c');
    v.push('t');
    v.push('r');
    v.push('l');
    proof {
        assert(v@ =~= modifier_names()[0]);
    }
    v
}

fn pattern_control() -> (r: Vec<char>)
    ensures
        r@ == modifier_names()[1],
{
    let mut v: Vec<char> = Vec::new();
    v.push('c');
    v.push('o');
    v.push('n');
    v.push('t');
    v.push('r');
    v.push('o');
    v.push('l');
    proof {
        assert(v@ =~= modifier_names()[1]);
    }
    v
}

fn pattern_shift() -> (r: Vec<char>)
    ensures
        r@ == modifier_names()[2],
{
    let mut v: Vec<char> = Vec::new();
    v.push('s');
    v.push('h');
    v.push('i');
    v.push('f');
    v.push('t');
    proof {
        assert(v@ =~= modifier_names()[2]);
    }
    v
}

fn pattern_alt() -> (r: Vec<char>)
    ensures
        r@ == modifier_names()[3],
{
    let mut v: Vec<char> = Vec::new();
    v.push('a');
    v.push('l');
    v.push('t');
    proof {
        assert(v@ =~= modifier_names()[3]);
    }
    v
}

fn pattern_cmd() -> (r: Vec<char>)
    ensures
        r@ == modifier_names()[4],
{
    let mut v: Vec<char> = Vec::new();
    v.push('c');
    v.push('m');
    v.push('d');
    proof {
        assert(v@ =~= modifier_names()[4]);
    }
    v
}

fn pattern_command() -> (r: Vec<char>)
    ensures
        r@ == modifier_names()[5],
{
    let mut v: Vec<char> = Vec::new();
    v.push('c');
    v.push('o');
    v.push('m');
    v.push('m');
    v.push('a');
    v.push('n');
    v.push('d');
    proof {
        assert(v@ =~= modifier_names()[5]);
    }
    v
}

fn pattern_meta() -> (r: Vec<char>)
    ensures
        r@ == modifier_names()[6],
{
    let mut v: Vec<char> = Vec::new();
    v.push('m');
    v.push('e');
    v.push('t');
    v.push('a');
    proof {
        assert(v@ =~= modifier_names()[6]);
    }
    v
}

/// The classification law in executable form: true exactly when the step
/// has no `+` and no modifier-name substring (case-insensitive), and is
/// therefore literal text rather than a key combination.
pub fn is_text_string(input: &str) -> (r: bool)
    ensures
        r == is_text_step(input@),
{
    let cs = chars_of_str(input);
    if vec_contains_char(&cs, '+') {
        return false;
    }
    let low = lower_vec(&cs);
    if contains_pattern(&low, &pattern_ctrl()) {
        proof {
            assert(has_modifier_substr(input@));
        }
        return false;
    }
    if contains_pattern(&low, &pattern_control()) {
        proof {
            assert(has_modifier_substr(input@));
        }
        return false;
    }
    if contains_pattern(&low, &pattern_shift()) {
        proof {
            assert(has_modifier_substr(input@));
        }
        return false;
    }
    if contains_pattern(&low, &pattern_alt()) {
        proof {
            assert(has_modifier_substr(input@));
        }
        return false;
    }
    if contains_pattern(&low, &pattern_cmd()) {
        proof {
            assert(has_modifier_substr(input@));
        }
        return false;
    }
    if contains_pattern(&low, &pattern_command()) {
        proof {
            assert(has_modifier_substr(input@));
        }
        return false;
    }
    if contains_pattern(&low, &pattern_meta()) {
        proof {
            assert(has_modifier_substr(input@));
        }
        return false;
    }
    proof {
        assert forall|k: int| 0 <= k < modifier_names().len() implies !contains_seq(
            spec_lower_seq(input@),
            #[trigger] modifier_names()[k],
        ) by {
            if k == 0 || k == 1 || k == 2 || k == 3 || k == 4 || k == 5 || k == 6 {
            }
        }
    }
    true
}

// ---------------------------------------------------------------------------
// Tokenization of a combo step: split on `+`, trim whitespace.
// ---------------------------------------------------------------------------

pub open spec fn is_space(c: char) -> bool {
    c == ' ' || c == '\t' || c == '\n' || c == '\r'
}

pub open spec fn drop_leading(s: Seq<char>) -> Seq<char>
    decreases s.len(),
{
    if s.len() > 0 && is_space(s[0]) {
        drop_leading(s.drop_first())
    } else {
        s
    }
}

pub open spec fn drop_trailing(s: Seq<char>) -> Seq<char>
    decreases s.len(),
{
    if s.len() > 0 && is_space(s.last()) {
        drop_trailing(s.drop_last())
    } else {
        s
    }
}

/// The token with its surrounding whitespace removed.
pub open spec fn spec_trim(s: Seq<char>) -> Seq<char> {
    drop_trailing(drop_leading(s))
}

/// How many characters stand before the first `+`.
pub open spec fn plus_prefix_len(s: Seq<char>) -> int
    decreases s.len(),
{
    if s.len() == 0 {
        0
    } else if s[0] == '+' {
        0
    } else {
        1 + plus_prefix_len(s.drop_first())
    }
}

proof fn lemma_plus_prefix_len_bounds(s: Seq<char>)
    ensures
        0 <= plus_prefix_len(s) <= s.len(),
    decreases s.len(),
{
    if s.len() > 0 && s[0] != '+' {
        lemma_plus_prefix_len_bounds(s.drop_first());
    }
}

/// The step split on `+` separators, separators dropped, empty pieces kept.
pub open spec fn split_plus(s: Seq<char>) -> Seq<Seq<char>>
    decreases s.len(),
    via split_plus_dec
{
    let k = plus_prefix_len(s);
    if k == s.len() {
        seq![s]
    } else {
        seq![s.take(k)] + split_plus(s.skip(k + 1))
    }
}

#[via_fn]
proof fn split_plus_dec(s: Seq<char>) {
    lemma_plus_prefix_len_bounds(s);
}

/// The combo step's tokens: split on `+`, each trimmed.
pub open spec fn tokens_of(s: Seq<char>) -> Seq<Seq<char>> {
    split_plus(s).map_values(|t: Seq<char>| spec_trim(t))
}

// ---------------------------------------------------------------------------
// Token meaning.
// ---------------------------------------------------------------------------

/// The modifier key a token names exactly, if any.
pub open spec fn spec_modifier_key(t: Seq<char>) -> Option<Key> {
    if t == seq!['C', 't', 'r', 'l'] || t == seq!['C', 'o', 'n', 't', 'r', 'o', 'l'] {
        Some(Key::Control)
    } else if t == seq!['A', 'l', 't'] {
        Some(Key::Alt)
    } else if t == seq!['S', 'h', 'i', 'f', 't'] {
        Some(Key::Shift)
    } else if t == seq!['C', 'm', 'd'] || t == seq!['C', 'o', 'm', 'm', 'a', 'n', 'd'] || t
        == seq!['M', 'e', 't', 'a'] {
        Some(Key::Meta)
    } else {
        None
    }
}

/// The named non-modifier key a token resolves to, if any.
pub open spec fn spec_special_key(t: Seq<char>) -> Option<Key> {
    if t == seq!['E', 'n', 't', 'e', 'r'] {
        Some(Key::Return)
    } else if t == seq!['T', 'a', 'b'] {
        Some(Key::Tab)
    } else if t == seq!['B', 'a', 'c', 'k', 's', 'p', 'a', 'c', 'e'] {
        Some(Key::Backspace)
    } else if t == seq!['S', 'p', 'a', 'c', 'e'] {
        Some(Key::Space)
    } else {
        None
    }
}

/// Whether the character carries the Unicode uppercase property; what
/// `char::is_uppercase` returns.
pub uninterp spec fn unicode_uppercase(c: char) -> bool;

/// Whether a character key is emitted with Shift held.
pub open spec fn needs_shift(c: char) -> bool {
    unicode_uppercase(c) || is_shift_punct(c)
}

// ---------------------------------------------------------------------------
// The combo plan: press modifiers in token order, click the main keys
// (injecting Shift where a character needs it), release in reverse order.
// ---------------------------------------------------------------------------

/// The modifiers pressed up front, in the order their tokens appear.
pub open spec fn press_list(toks: Seq<Seq<char>>) -> Seq<Key>
    decreases toks.len(),
{
    if toks.len() == 0 {
        seq![]
    } else {
        match spec_modifier_key(toks[0]) {
            Some(k) => seq![k] + press_list(toks.drop_first()),
            None => press_list(toks.drop_first()),
        }
    }
}

/// The events for one non-modifier token, given the modifiers held: a named
/// key is clicked; an empty token is malformed and skipped; a character
/// that needs Shift gets Shift pressed first unless already held, and is
/// clicked in lower-case form; any other character is clicked as it is.
pub open spec fn key_token_step(t: Seq<char>, pressed: Seq<Key>) -> (Seq<KeyEvent>, Seq<Key>) {
    match spec_special_key(t) {
        Some(k) => (seq![KeyEvent::Click(k)], pressed),
        None => {
            if t.len() == 0 {
                (seq![], pressed)
            } else {
                let c = t[0];
                if needs_shift(c) && !pressed.contains(Key::Shift) {
                    (
                        seq![
                            KeyEvent::Press(Key::Shift),
                            KeyEvent::Click(Key::Unicode(spec_ascii_lower(c))),
                        ],
                        pressed.push(Key::Shift),
                    )
                } else if needs_shift(c) {
                    (seq![KeyEvent::Click(Key::Unicode(spec_ascii_lower(c)))], pressed)
                } else {
                    (seq![KeyEvent::Click(Key::Unicode(c))], pressed)
                }
            }
        },
    }
}

/// The main pass over the tokens: modifiers are skipped (they were pressed
/// up front), every other token contributes its events; the pressed-
/// modifier list threads through because an injected Shift stays held.
pub open spec fn main_fold(toks: Seq<Seq<char>>, pressed: Seq<Key>) -> (Seq<KeyEvent>, Seq<Key>)
    decreases toks.len(),
{
    if toks.len() == 0 {
        (seq![], pressed)
    } else if spec_modifier_key(toks[0]) is Some {
        main_fold(toks.drop_first(), pressed)
    } else {
        let tr = key_token_step(toks[0], pressed);
        let rest = main_fold(toks.drop_first(), tr.1);
        (tr.0 + rest.0, rest.1)
    }
}

pub open spec fn press_events(l: Seq<Key>) -> Seq<KeyEvent> {
    l.map_values(|k: Key| KeyEvent::Press(k))
}

/// Releases come in reverse press order.
pub open spec fn release_events(l: Seq<Key>) -> Seq<KeyEvent> {
    l.reverse().map_values(|k: Key| KeyEvent::Release(k))
}

/// Every modifier the combo ends up holding: those pressed up front plus a
/// Shift injected for a character that needed it.
pub open spec fn combo_pressed(step: Seq<char>) -> Seq<Key> {
    main_fold(tokens_of(step), press_list(tokens_of(step))).1
}

/// The whole plan of one combo step.
pub open spec fn spec_plan_combo(step: Seq<char>) -> Seq<KeyEvent> {
    let toks = tokens_of(step);
    let p0 = press_list(toks);
    let m = main_fold(toks, p0);
    press_events(p0) + m.0 + release_events(m.1)
}

/// A text step: each character typed in order.
pub open spec fn spec_plan_text(s: Seq<char>) -> Seq<KeyEvent>
    decreases s.len(),
{
    if s.len() == 0 {
        Seq::empty()
    } else {
        spec_plan_text(s.drop_last()).push(KeyEvent::TypeChar(s.last()))
    }
}

/// One step of a sequence: text is typed; a combo is executed and followed
/// by the inter-step pause.
pub open spec fn spec_plan_step(s: Seq<char>, interval: u64) -> Seq<KeyEvent> {
    if is_text_step(s) {
        spec_plan_text(s)
    } else {
        spec_plan_combo(s) + seq![KeyEvent::Sleep(interval)]
    }
}

/// A whole sequence, step by step.
pub open spec fn spec_plan_sequence(steps: Seq<Seq<char>>, interval: u64) -> Seq<KeyEvent>
    decreases steps.len(),
{
    if steps.len() == 0 {
        seq![]
    } else {
        spec_plan_step(steps[0], interval) + spec_plan_sequence(steps.drop_first(), interval)
    }
}

/// The pause after each combo step when the caller names none.
pub const DEFAULT_INTERVAL_MS: u64 = 100;

/// The punctuation that needs Shift on the reference keyboard layout.
pub open spec fn is_shift_punct(c: char) -> bool {
    c == '!' || c == '@' || c == '#' || c == '$' || c == '%' || c == '^' || c == '&' || c == '*'
        || c == '(' || c == ')' || c == '_' || c == '+' || c == '{' || c == '}' || c == '|'
        || c == ':' || c == '"' || c == '<' || c == '>' || c == '?'
}

/// Whether this character needs Shift held while its key is clicked.
pub fn is_special_character(c: char) -> (r: bool)
    ensures
        r == is_shift_punct(c),
{
    match c {
        '!' | '@' | '#' | '$' | '%' | '^' | '&' | '*' | '(' | ')' | '_' | '+' | '{' | '}' | '|'
            | ':' | '"' | '<' | '>' | '?' => true,
        _ => false,
    }
}

/// Relies on `char::is_uppercase`: whether the character carries the
/// Unicode uppercase property. The result depends on the character alone;
/// on ASCII it holds exactly of the letters `A` through `Z`.
#[verifier::external_body]
fn char_is_uppercase(c: char) -> (r: bool)
    ensures
        r == unicode_uppercase(c),
        (c as int) < 128 ==> r == ('A' <= c && c <= 'Z'),
{
    c.is_uppercase()
}

// ---------------------------------------------------------------------------
// Executable tokenization.
// ---------------------------------------------------------------------------

pub(crate) fn is_space_char(c: char) -> (r: bool)
    ensures
        r == is_space(c),
{
    c == ' ' || c == '\t' || c == '\n' || c == '\r'
}

fn trim_chars(v: &Vec<char>) -> (r: Vec<char>)
    ensures
        r@ == spec_trim(v@),
{
    let n = v.len();
    proof {
        assert(v@.skip(0) =~= v@);
    }
    let mut a: usize = 0;
    while a < n && is_space_char(v[a])
        invariant
            a <= n,
            n == v@.len(),
            drop_leading(v@) == drop_leading(v@.skip(a as int)),
        decreases n - a,
    {
        proof {
            assert(v@.skip(a as int).drop_first() =~= v@.skip(a as int + 1));
        }
        a += 1;
    }
    proof {
        if a < n {
            assert(v@.skip(a as int)[0] == v@[a as int]);
        }
        assert(drop_leading(v@) == v@.skip(a as int));
        assert(v@.skip(a as int) =~= v@.subrange(a as int, n as int));
    }
    let mut b: usize = n;
    while b > a && is_space_char(v[b - 1])
        invariant
            a <= b <= n,
            n == v@.len(),
            drop_trailing(v@.subrange(a as int, n as int)) == drop_trailing(
                v@.subrange(a as int, b as int),
            ),
        decreases b,
    {
        proof {
            assert(v@.subrange(a as int, b as int).drop_last() =~= v@.subrange(
                a as int,
                b as int - 1,
            ));
            assert(v@.subrange(a as int, b as int).last() == v@[b - 1]);
        }
        b -= 1;
    }
    proof {
        if b > a {
            assert(v@.subrange(a as int, b as int).last() == v@[b - 1]);
        }
        assert(drop_trailing(v@.subrange(a as int, b as int)) == v@.subrange(a as int, b as int));
    }
    let mut r: Vec<char> = Vec::new();
    let mut x: usize = a;
    while x < b
        invariant
            a <= x <= b <= v@.len(),
            r@ == v@.subrange(a as int, x as int),
        decreases b - x,
    {
        r.push(v[x]);
        x += 1;
        proof {
            assert(r@ =~= v@.subrange(a as int, x as int));
        }
    }
    proof {
        assert(r@ == spec_trim(v@));
    }
    r
}

proof fn lemma_plus_prefix_of(t: Seq<char>, m: int)
    requires
        0 <= m <= t.len(),
        forall|x: int| 0 <= x < m ==> (#[trigger] t[x]) != '+',
        m == t.len() || t[m] == '+',
    ensures
        plus_prefix_len(t) == m,
    decreases m,
{
    if m == 0 {
    } else {
        assert(t[0] != '+');
        lemma_plus_prefix_of(t.drop_first(), m - 1);
    }
}

/// The step's tokens from position `i` on: split on `+`, each trimmed.
fn split_trim(s: &Vec<char>, i: usize) -> (r: Vec<Vec<char>>)
    requires
        i <= s@.len(),
    ensures
        r.deep_view() == split_plus(s@.skip(i as int)).map_values(|t: Seq<char>| spec_trim(t)),
    decreases s@.len() - i,
{
    let ghost t = s@.skip(i as int);
    let mut j: usize = i;
    while j < s.len() && s[j] != '+'
        invariant
            i <= j <= s@.len(),
            forall|x: int| i <= x < j ==> (#[trigger] s@[x]) != '+',
        decreases s@.len() - j,
    {
        j += 1;
    }
    proof {
        assert forall|x: int| 0 <= x < j - i implies (#[trigger] t[x]) != '+' by {
            assert(t[x] == s@[i + x]);
        }
        if j < s@.len() {
            assert(t[j - i] == s@[j as int]);
        }
        lemma_plus_prefix_of(t, j - i);
    }
    let mut tok: Vec<char> = Vec::new();
    let mut x: usize = i;
    while x < j
        invariant
            i <= x <= j <= s@.len(),
            tok@ == s@.subrange(i as int, x as int),
        decreases j - x,
    {
        tok.push(s[x]);
        x += 1;
        proof {
            assert(tok@ =~= s@.subrange(i as int, x as int));
        }
    }
    proof {
        assert(tok@ =~= t.take(j - i));
    }
    let trimmed = trim_chars(&tok);
    if j == s.len() {
        proof {
            assert(t.take(j - i) =~= t);
        }
        let ghost trv = trimmed.deep_view();
        proof {
            assert(trv =~= trimmed@);
        }
        let mut r: Vec<Vec<char>> = Vec::new();
        r.push(trimmed);
        proof {
            assert(r.deep_view() =~= split_plus(t).map_values(|q: Seq<char>| spec_trim(q)));
        }
        r
    } else {
        proof {
            assert(t.skip(j - i + 1) =~= s@.skip(j as int + 1));
        }
        let ghost trv = trimmed.deep_view();
        proof {
            assert(trv =~= trimmed@);
        }
        let mut rest = split_trim(s, j + 1);
        let ghost prev = rest.deep_view();
        rest.insert(0, trimmed);
        proof {
            assert(rest.deep_view() =~= seq![spec_trim(t.take(j - i))] + prev);
            assert(split_plus(t) == seq![t.take(j - i)] + split_plus(t.skip(j - i + 1)));
            assert(rest.deep_view() =~= split_plus(t).map_values(|q: Seq<char>| spec_trim(q)));
        }
        rest
    }
}

// ---------------------------------------------------------------------------
// Executable token meaning.
// ---------------------------------------------------------------------------

fn modifier_key(t: &Vec<char>) -> (r: Option<Key>)
    ensures
        r == spec_modifier_key(t@),
{
    if t.len() == 4 && t[0] == 'C' && t[1] == 't' && t[2] == 'r' && t[3] == 'l' {
        proof {
            assert(t@ =~= seq!['C', 't', 'r', 'l']);
        }
        Some(Key::Control)
    } else if t.len() == 7 && t[0] == 'C' && t[1] == 'o' && t[2] == 'n' && t[3] == 't' && t[4]
        == 'r' && t[5] == 'o' && t[6] == 'l' {
        proof {
            assert(t@ =~= seq!['C', 'o', 'n', 't', 'r', 'o', 'l']);
        }
        Some(Key::Control)
    } else if t.len() == 3 && t[0] == 'A' && t[1] == 'l' && t[2] == 't' {
        proof {
            assert(t@ =~= seq!['A', 'l', 't']);
        }
        Some(Key::Alt)
    } else if t.len() == 5 && t[0] == 'S' && t[1] == 'h' && t[2] == 'i' && t[3] == 'f' && t[4]
        == 't' {
        proof {
            assert(t@ =~= seq!['S', 'h', 'i', 'f', 't']);
        }
        Some(Key::Shift)
    } else if t.len() == 3 && t[0] == 'C' && t[1] == 'm' && t[2] == 'd' {
        proof {
            assert(t@ =~= seq!['C', 'm', 'd']);
        }
        Some(Key::Meta)
    } else if t.len() == 7 && t[0] == 'C' && t[1] == 'o' && t[2] == 'm' && t[3] == 'm' && t[4]
        == 'a' && t[5] == 'n' && t[6] == 'd' {
        proof {
            assert(t@ =~= seq!['C', 'o', 'm', 'm', 'a', 'n', 'd']);
        }
        Some(Key::Meta)
    } else if t.len() == 4 && t[0] == 'M' && t[1] == 'e' && t[2] == 't' && t[3] == 'a' {
        proof {
            assert(t@ =~= seq!['M', 'e', 't', 'a']);
        }
        Some(Key::Meta)
    } else {
        None
    }
}

fn special_key(t: &Vec<char>) -> (r: Option<Key>)
    ensures
        r == spec_special_key(t@),
{
    if t.len() == 5 && t[0] == 'E' && t[1] == 'n' && t[2] == 't' && t[3] == 'e' && t[4] == 'r' {
        proof {
            assert(t@ =~= seq!['E', 'n', 't', 'e', 'r']);
        }
        Some(Key::Return)
    } else if t.len() == 3 && t[0] == 'T' && t[1] == 'a' && t[2] == 'b' {
        proof {
            assert(t@ =~= seq!['T', 'a', 'b']);
        }
        Some(Key::Tab)
    } else if t.len() == 9 && t[0] == 'B' && t[1] == 'a' && t[2] == 'c' && t[3] == 'k' && t[4]
        == 's' && t[5] == 'p' && t[6] == 'a' && t[7] == 'c' && t[8] == 'e' {
        proof {
            assert(t@ =~= seq!['B', 'a', 'c', 'k', 's', 'p', 'a', 'c', 'e']);
        }
        Some(Key::Backspace)
    } else if t.len() == 5 && t[0] == 'S' && t[1] == 'p' && t[2] == 'a' && t[3] == 'c' && t[4]
        == 'e' {
        proof {
            assert(t@ =~= seq!['S', 'p', 'a', 'c', 'e']);
        }
        Some(Key::Space)
    } else {
        None
    }
}

fn pressed_contains(v: &Vec<Key>, k: Key) -> (r: bool)
    ensures
        r == v@.contains(k),
{
    let mut i: usize = 0;
    while i < v.len()
        invariant
            i <= v@.len(),
            forall|x: int| 0 <= x < i ==> v@[x] != k,
        decreases v@.len() - i,
    {
        if v[i] == k {
            return true;
        }
        i += 1;
    }
    false
}

} // verus!

verus! {

// ---------------------------------------------------------------------------
// The executable planner.
// ---------------------------------------------------------------------------

/// Appending one token to the press pass.
proof fn lemma_press_list_snoc(toks: Seq<Seq<char>>, i: int)
    requires
        0 <= i < toks.len(),
    ensures
        press_list(toks.take(i + 1)) == press_list(toks.take(i)) + (match spec_modifier_key(
            toks[i],
        ) {
            Some(k) => seq![k],
            None => Seq::<Key>::empty(),
        }),
    decreases i,
{
    if i == 0 {
        assert(toks.take(0) =~= Seq::<Seq<char>>::empty());
        assert(toks.take(1).drop_first() =~= Seq::<Seq<char>>::empty());
        assert(toks.take(1)[0] == toks[0]);
        match spec_modifier_key(toks[0]) {
            Some(k) => {
                assert(press_list(toks.take(1)) =~= press_list(toks.take(0)) + seq![k]);
            },
            None => {
                assert(press_list(toks.take(1)) =~= press_list(toks.take(0)));
            },
        }
    } else {
        lemma_press_list_snoc(toks.drop_first(), i - 1);
        assert(toks.take(i + 1).drop_first() =~= toks.drop_first().take(i));
        assert(toks.take(i).drop_first() =~= toks.drop_first().take(i - 1));
        assert(toks.take(i + 1)[0] == toks[0]);
        assert(toks.take(i)[0] == toks[0]);
        assert(toks.drop_first()[i - 1] == toks[i]);
        match spec_modifier_key(toks[0]) {
            Some(k) => {
                assert(press_list(toks.take(i + 1)) =~= press_list(toks.take(i)) + (
                match spec_modifier_key(toks[i]) {
                    Some(k2) => seq![k2],
                    None => Seq::<Key>::empty(),
                }));
            },
            None => {
                assert(press_list(toks.take(i + 1)) =~= press_list(toks.take(i)) + (
                match spec_modifier_key(toks[i]) {
                    Some(k2) => seq![k2],
                    None => Seq::<Key>::empty(),
                }));
            },
        }
    }
}

/// Appending one token to the main pass.
proof fn lemma_main_fold_snoc(toks: Seq<Seq<char>>, p0: Seq<Key>, i: int)
    requires
        0 <= i < toks.len(),
    ensures
        main_fold(toks.take(i + 1), p0) == ({
            let a = main_fold(toks.take(i), p0);
            if spec_modifier_key(toks[i]) is Some {
                a
            } else {
                let b = key_token_step(toks[i], a.1);
                (a.0 + b.0, b.1)
            }
        }),
    decreases i,
{
    if i == 0 {
        assert(toks.take(0) =~= Seq::<Seq<char>>::empty());
        assert(toks.take(1).drop_first() =~= Seq::<Seq<char>>::empty());
        assert(toks.take(1)[0] == toks[0]);
        if spec_modifier_key(toks[0]) is Some {
        } else {
            let b = key_token_step(toks[0], p0);
            assert(main_fold(toks.take(1), p0).0 =~= b.0);
            assert(main_fold(toks.take(1), p0) == (b.0, b.1));
            assert(main_fold(toks.take(0), p0).0 + b.0 =~= b.0);
        }
    } else {
        assert(toks.take(i + 1).drop_first() =~= toks.drop_first().take(i));
        assert(toks.take(i).drop_first() =~= toks.drop_first().take(i - 1));
        assert(toks.take(i + 1)[0] == toks[0]);
        assert(toks.take(i)[0] == toks[0]);
        assert(toks.drop_first()[i - 1] == toks[i]);
        if spec_modifier_key(toks[0]) is Some {
            lemma_main_fold_snoc(toks.drop_first(), p0, i - 1);
        } else {
            let h = key_token_step(toks[0], p0);
            lemma_main_fold_snoc(toks.drop_first(), h.1, i - 1);
            let a1 = main_fold(toks.drop_first().take(i - 1), h.1);
            let a = main_fold(toks.take(i), p0);
            assert(a == (h.0 + a1.0, a1.1));
            if spec_modifier_key(toks[i]) is Some {
            } else {
                let b = key_token_step(toks[i], a1.1);
                assert(main_fold(toks.drop_first().take(i), h.1) == (a1.0 + b.0, b.1));
                assert(main_fold(toks.take(i + 1), p0) == (h.0 + (a1.0 + b.0), b.1));
                assert(h.0 + (a1.0 + b.0) =~= (h.0 + a1.0) + b.0);
            }
        }
    }
}

/// The plan of one combo step: modifiers pressed in token order, main keys
/// clicked with Shift injected where a character needs it, modifiers
/// released in reverse press order.
pub fn plan_combo(step: &str) -> (r: Vec<KeyEvent>)
    ensures
        r@ == spec_plan_combo(step@),
{
    let cs = chars_of_str(step);
    proof {
        assert(cs@.skip(0) =~= cs@);
    }
    let toks = split_trim(&cs, 0);
    let ghost tv = toks.deep_view();
    proof {
        assert(tv == tokens_of(step@));
    }
    let mut events: Vec<KeyEvent> = Vec::new();
    let mut pressed: Vec<Key> = Vec::new();
    let n = toks.len();
    let mut i: usize = 0;
    while i < n
        invariant
            n == tv.len(),
            tv == toks.deep_view(),
            i <= n,
            pressed@ == press_list(tv.take(i as int)),
            events@ == press_events(press_list(tv.take(i as int))),
        decreases n - i,
    {
        proof {
            assert(toks.deep_view()[i as int] == toks@[i as int].deep_view());
            assert(toks@[i as int].deep_view() =~= toks@[i as int]@);
        }
        match modifier_key(&toks[i]) {
            Some(k) => {
                events.push(KeyEvent::Press(k));
                pressed.push(k);
                proof {
                    lemma_press_list_snoc(tv, i as int);
                    assert(pressed@ =~= press_list(tv.take(i as int + 1)));
                    assert(events@ =~= press_events(press_list(tv.take(i as int + 1))));
                }
            },
            None => {
                proof {
                    lemma_press_list_snoc(tv, i as int);
                    assert(pressed@ =~= press_list(tv.take(i as int + 1)));
                    assert(events@ =~= press_events(press_list(tv.take(i as int + 1))));
                }
            },
        }
        i += 1;
    }
    proof {
        assert(tv.take(n as int) =~= tv);
    }
    let ghost p0 = pressed@;
    let mut i2: usize = 0;
    while i2 < n
        invariant
            n == tv.len(),
            tv == toks.deep_view(),
            i2 <= n,
            p0 == press_list(tv),
            pressed@ == main_fold(tv.take(i2 as int), p0).1,
            events@ == press_events(p0) + main_fold(tv.take(i2 as int), p0).0,
        decreases n - i2,
    {
        proof {
            assert(toks.deep_view()[i2 as int] == toks@[i2 as int].deep_view());
            assert(toks@[i2 as int].deep_view() =~= toks@[i2 as int]@);
            lemma_main_fold_snoc(tv, p0, i2 as int);
        }
        let is_mod = modifier_key(&toks[i2]);
        if is_mod.is_none() {
            match special_key(&toks[i2]) {
                Some(k) => {
                    events.push(KeyEvent::Click(k));
                    proof {
                        assert(events@ =~= press_events(p0) + main_fold(
                            tv.take(i2 as int + 1),
                            p0,
                        ).0);
                    }
                },
                None => {
                    if toks[i2].len() > 0 {
                        let c = toks[i2][0];
                        proof {
                            assert(c == tv[i2 as int][0]);
                        }
                        let ns = char_is_uppercase(c) || is_special_character(c);
                        if ns && !pressed_contains(&pressed, Key::Shift) {
                            events.push(KeyEvent::Press(Key::Shift));
                            pressed.push(Key::Shift);
                            events.push(KeyEvent::Click(Key::Unicode(ascii_lower(c))));
                            proof {
                                assert(events@ =~= press_events(p0) + main_fold(
                                    tv.take(i2 as int + 1),
                                    p0,
                                ).0);
                            }
                        } else if ns {
                            events.push(KeyEvent::Click(Key::Unicode(ascii_lower(c))));
                            proof {
                                assert(events@ =~= press_events(p0) + main_fold(
                                    tv.take(i2 as int + 1),
                                    p0,
                                ).0);
                            }
                        } else {
                            events.push(KeyEvent::Click(Key::Unicode(c)));
                            proof {
                                assert(events@ =~= press_events(p0) + main_fold(
                                    tv.take(i2 as int + 1),
                                    p0,
                                ).0);
                            }
                        }
                    } else {
                        proof {
                            assert(events@ =~= press_events(p0) + main_fold(
                                tv.take(i2 as int + 1),
                                p0,
                            ).0);
                        }
                    }
                },
            }
        } else {
            proof {
                assert(events@ =~= press_events(p0) + main_fold(tv.take(i2 as int + 1), p0).0);
            }
        }
        i2 += 1;
    }
    proof {
        assert(tv.take(n as int) =~= tv);
    }
    let ghost p1 = pressed@;
    let mut x: usize = pressed.len();
    while x > 0
        invariant
            p1 == pressed@,
            x <= p1.len(),
            events@ == press_events(p0) + main_fold(tv, p0).0 + release_events(p1).take(
                p1.len() - x,
            ),
        decreases x,
    {
        x -= 1;
        events.push(KeyEvent::Release(pressed[x]));
        proof {
            assert(release_events(p1)[p1.len() - x - 1] == KeyEvent::Release(p1[x as int]));
            assert(events@ =~= press_events(p0) + main_fold(tv, p0).0 + release_events(p1).take(
                p1.len() - x,
            ));
        }
    }
    proof {
        assert(release_events(p1).take(p1.len() as int) =~= release_events(p1));
        assert(events@ == spec_plan_combo(step@));
    }
    events
}

fn mk_type_char(c: char) -> (r: KeyEvent)
    ensures
        r == KeyEvent::TypeChar(c),
{
    KeyEvent::TypeChar(c)
}

/// The plan of one text step: its characters typed in order.
pub fn plan_text(text: &str) -> (r: Vec<KeyEvent>)
    ensures
        r@ == spec_plan_text(text@),
{
    let cs = chars_of_str(text);
    let mut out: Vec<KeyEvent> = Vec::new();
    let mut i: usize = 0;
    while i < cs.len()
        invariant
            cs@ == text@,
            i <= cs@.len(),
            out@ == spec_plan_text(text@.take(i as int)),
        decreases cs@.len() - i,
    {
        proof {
            assert(text@.take(i as int + 1).drop_last() =~= text@.take(i as int));
            assert(text@.take(i as int + 1).last() == text@[i as int]);
        }
        let ev = mk_type_char(cs[i]);
        out.push(ev);
        i += 1;
    }
    proof {
        assert(text@.take(text@.len() as int) =~= text@);
    }
    out
}


/// Appending one step to a sequence plan.
proof fn lemma_plan_sequence_snoc(steps: Seq<Seq<char>>, interval: u64, i: int)
    requires
        0 <= i < steps.len(),
    ensures
        spec_plan_sequence(steps.take(i + 1), interval) == spec_plan_sequence(
            steps.take(i),
            interval,
        ) + spec_plan_step(steps[i], interval),
    decreases i,
{
    if i == 0 {
        assert(steps.take(0) =~= Seq::<Seq<char>>::empty());
        assert(steps.take(1).drop_first() =~= Seq::<Seq<char>>::empty());
        assert(steps.take(1)[0] == steps[0]);
        assert(spec_plan_sequence(steps.take(1), interval) =~= spec_plan_sequence(
            steps.take(0),
            interval,
        ) + spec_plan_step(steps[0], interval));
    } else {
        lemma_plan_sequence_snoc(steps.drop_first(), interval, i - 1);
        assert(steps.take(i + 1).drop_first() =~= steps.drop_first().take(i));
        assert(steps.take(i).drop_first() =~= steps.drop_first().take(i - 1));
        assert(steps.take(i + 1)[0] == steps[0]);
        assert(steps.take(i)[0] == steps[0]);
        assert(steps.drop_first()[i - 1] == steps[i]);
        assert(spec_plan_sequence(steps.take(i + 1), interval) =~= spec_plan_sequence(
            steps.take(i),
            interval,
        ) + spec_plan_step(steps[i], interval));
    }
}

/// The plan of a whole stored sequence: each step classified and planned,
/// with the given pause (or the default) after every combo step. This is
/// the engine's single entry point; running the events it yields is the
/// caller's, off the critical path.
pub fn plan_sequence(steps: &Vec<String>, interval_ms: Option<u64>) -> (r: Vec<KeyEvent>)
    ensures
        r@ == spec_plan_sequence(
            steps.deep_view(),
            match interval_ms {
                Some(v) => v,
                None => DEFAULT_INTERVAL_MS,
            },
        ),
{
    let interval = match interval_ms {
        Some(v) => v,
        None => DEFAULT_INTERVAL_MS,
    };
    let ghost sv = steps.deep_view();
    let mut r: Vec<KeyEvent> = Vec::new();
    let mut i: usize = 0;
    while i < steps.len()
        invariant
            sv == steps.deep_view(),
            i <= sv.len(),
            r@ == spec_plan_sequence(sv.take(i as int), interval),
        decreases sv.len() - i,
    {
        proof {
            lemma_plan_sequence_snoc(sv, interval, i as int);
            assert(sv[i as int] == steps@[i as int]@);
        }
        let step = &steps[i];
        if is_text_string(step.as_str()) {
            let mut evs = plan_text(step.as_str());
            r.append(&mut evs);
        } else {
            let mut evs = plan_combo(step.as_str());
            r.append(&mut evs);
            r.push(KeyEvent::Sleep(interval));
            proof {
                assert(r@ =~= spec_plan_sequence(sv.take(i as int), interval) + (spec_plan_combo(
                    sv[i as int],
                ) + seq![KeyEvent::Sleep(interval)]));
            }
        }
        i += 1;
        proof {
            assert(r@ =~= spec_plan_sequence(sv.take(i as int), interval));
        }
    }
    proof {
        assert(sv.take(sv.len() as int) =~= sv);
    }
    r
}

// ---------------------------------------------------------------------------
// Laws.
// ---------------------------------------------------------------------------

/// Modifier release order: the combo plan ends with one release per held
/// modifier, and the x-th release from the start of that block releases
/// the modifier pressed (count from the end) x-th last — releases come in
/// exactly the reverse of press order.
pub proof fn law_release_order(step: Seq<char>)
    ensures
        ({
            let plan = spec_plan_combo(step);
            let held = combo_pressed(step);
            &&& plan.len() >= held.len()
            &&& forall|x: int|
                0 <= x < held.len() ==> #[trigger] plan[plan.len() - held.len() + x]
                    == KeyEvent::Release(held[held.len() - 1 - x])
        }),
{
    let toks = tokens_of(step);
    let p0 = press_list(toks);
    let m = main_fold(toks, p0);
    let plan = spec_plan_combo(step);
    let held = combo_pressed(step);
    assert(held == m.1);
    assert(plan == press_events(p0) + m.0 + release_events(m.1));
    assert forall|x: int|
        0 <= x < held.len() implies #[trigger] plan[plan.len() - held.len() + x]
        == KeyEvent::Release(held[held.len() - 1 - x]) by {
        assert(release_events(held)[x] == KeyEvent::Release(held.reverse()[x]));
        assert(held.reverse()[x] == held[held.len() - 1 - x]);
        assert(plan[plan.len() - held.len() + x] == release_events(held)[x]);
    }
}

/// Shift injection: a character token that is uppercase or shift-requiring
/// punctuation has a Shift press immediately before its click unless Shift
/// is already held; a held Shift is not pressed again, and the character
/// is clicked in lower-case form either way.
pub proof fn law_shift_injection(t: Seq<char>, pressed: Seq<Key>)
    requires
        spec_special_key(t) is None,
        t.len() > 0,
        needs_shift(t[0]),
    ensures
        !pressed.contains(Key::Shift) ==> key_token_step(t, pressed) == (
            seq![
                KeyEvent::Press(Key::Shift),
                KeyEvent::Click(Key::Unicode(spec_ascii_lower(t[0]))),
            ],
            pressed.push(Key::Shift),
        ),
        pressed.contains(Key::Shift) ==> key_token_step(t, pressed) == (
            seq![KeyEvent::Click(Key::Unicode(spec_ascii_lower(t[0])))],
            pressed,
        ),
{
}

} // verus!



verus! {

proof fn lemma_main_fold_shift(toks: Seq<Seq<char>>, pressed: Seq<Key>, k: int, c: char)
    requires
        0 <= k < main_fold(toks, pressed).0.len(),
        main_fold(toks, pressed).0[k] == KeyEvent::Click(Key::Unicode(c)),
        needs_shift(c),
    ensures
        pressed.contains(Key::Shift) || exists|j: int|
            0 <= j < k && main_fold(toks, pressed).0[j] == KeyEvent::Press(Key::Shift),
    decreases toks.len(),
{
    if toks.len() == 0 {
    } else if spec_modifier_key(toks[0]) is Some {
        lemma_main_fold_shift(toks.drop_first(), pressed, k, c);
    } else {
        let h = key_token_step(toks[0], pressed);
        let rest = main_fold(toks.drop_first(), h.1);
        let evs = main_fold(toks, pressed).0;
        assert(evs == h.0 + rest.0);
        if k < h.0.len() {
            match spec_special_key(toks[0]) {
                Some(_) => {},
                None => {
                    if toks[0].len() > 0 {
                        let c0 = toks[0][0];
                        if needs_shift(c0) && !pressed.contains(Key::Shift) {
                            if k == 1 {
                                assert(evs[0] == KeyEvent::Press(Key::Shift));
                            }
                        }
                    }
                },
            }
        } else {
            lemma_main_fold_shift(toks.drop_first(), h.1, k - h.0.len(), c);
            if h.1.contains(Key::Shift) && !pressed.contains(Key::Shift) {
                assert(h.1 == pressed.push(Key::Shift));
                assert(h.0[0] == KeyEvent::Press(Key::Shift));
                assert(evs[0] == KeyEvent::Press(Key::Shift));
            } else if !pressed.contains(Key::Shift) {
                let j0 = choose|j0: int|
                    0 <= j0 < k - h.0.len() && rest.0[j0] == KeyEvent::Press(Key::Shift);
                assert(evs[h.0.len() + j0] == KeyEvent::Press(Key::Shift));
            }
        }
    }
}

/// Shift injection at the plan level: wherever the combo plan clicks a
/// character that itself needs Shift (the shift-requiring punctuation, and
/// every uppercase character that ASCII lowering leaves as it is), some
/// Shift press stands earlier in the plan.
pub proof fn law_shift_press_precedes_click(step: Seq<char>, k: int, c: char)
    requires
        0 <= k < spec_plan_combo(step).len(),
        spec_plan_combo(step)[k] == KeyEvent::Click(Key::Unicode(c)),
        needs_shift(c),
    ensures
        exists|j: int|
            0 <= j < k && spec_plan_combo(step)[j] == KeyEvent::Press(Key::Shift),
{
    let toks = tokens_of(step);
    let p0 = press_list(toks);
    let m = main_fold(toks, p0);
    let plan = spec_plan_combo(step);
    assert(plan == press_events(p0) + m.0 + release_events(m.1));
    if k < p0.len() {
        assert(plan[k] == press_events(p0)[k]);
        assert(press_events(p0)[k] == KeyEvent::Press(p0[k]));
        assert(false);
    } else if k < p0.len() + m.0.len() {
        assert(plan[k] == m.0[k - p0.len()]);
        lemma_main_fold_shift(toks, p0, k - p0.len(), c);
        if p0.contains(Key::Shift) {
            let idx = choose|idx: int| 0 <= idx < p0.len() && p0[idx] == Key::Shift;
            assert(press_events(p0)[idx] == KeyEvent::Press(Key::Shift));
            assert(plan[idx] == KeyEvent::Press(Key::Shift));
        } else {
            let j0 = choose|j0: int|
                0 <= j0 < k - p0.len() && m.0[j0] == KeyEvent::Press(Key::Shift);
            assert(plan[p0.len() + j0] == KeyEvent::Press(Key::Shift));
        }
    } else {
        assert(plan[k] == release_events(m.1)[k - p0.len() - m.0.len()]);
        assert(release_events(m.1)[k - p0.len() - m.0.len()] == KeyEvent::Release(
            m.1.reverse()[k - p0.len() - m.0.len()],
        ));
        assert(false);
    }
}

} // verus!
