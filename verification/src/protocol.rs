//! The socket control channel's inbound side: textual frames decoded into
//! control messages, and the per-frame dispatch decisions. A frame is a
//! flat object of string and unsigned-number fields; anything else — bad
//! text, an unknown `type`, a missing field — is an unknown message, which
//! the dispatcher ignores rather than ending the connection.

use vstd::prelude::*;

use crate::codec::{p_num, p_string, parse_num, parse_string};
use crate::model::Shortcut;
use crate::registry::{has_id, unique_ids};
use crate::session::{AppState, DeviceV, PairingOutcome};
use crate::simulate::{
    drop_leading, is_space, is_space_char, plan_sequence, spec_plan_sequence, KeyEvent,
    DEFAULT_INTERVAL_MS,
};
use crate::text::{chars_of_str, string_from_chars};

verus! {

// ---------------------------------------------------------------------------
// The frame grammar, as spec functions: whitespace-tolerant flat objects.
// ---------------------------------------------------------------------------

/// One field value: a quoted string or an unsigned number.
pub enum FieldVal {
    StrV(Seq<char>),
    NumV(u64),
}

/// A string field value, ready for executable code.
pub enum ParsedVal {
    PStr(Vec<char>),
    PNum(u64),
}

impl View for ParsedVal {
    type V = FieldVal;

    open spec fn view(&self) -> FieldVal {
        match self {
            ParsedVal::PStr(v) => FieldVal::StrV(v@),
            ParsedVal::PNum(n) => FieldVal::NumV(*n),
        }
    }
}

impl DeepView for ParsedVal {
    type V = FieldVal;

    open spec fn deep_view(&self) -> FieldVal {
        self.view()
    }
}

pub open spec fn p_value(s: Seq<char>) -> Option<(FieldVal, Seq<char>)> {
    if s.len() > 0 && s[0] == '"' {
        match p_string(s) {
            Some((v, rest)) => Some((FieldVal::StrV(v), rest)),
            None => None,
        }
    } else {
        match p_num(s) {
            Some((n, rest)) => Some((FieldVal::NumV(n), rest)),
            None => None,
        }
    }
}

pub proof fn lemma_p_value_consumes(s: Seq<char>)
    ensures
        p_value(s) is Some ==> p_value(s)->Some_0.1.len() < s.len(),
{
    crate::codec::lemma_p_string_consumes(s);
    crate::codec::lemma_p_num_consumes(s);
}

/// One `"key": value` pair, whitespace allowed around the tokens.
pub open spec fn p_field(s: Seq<char>) -> Option<((Seq<char>, FieldVal), Seq<char>)> {
    let s0 = drop_leading(s);
    match p_string(s0) {
        None => None,
        Some((key, s1)) => {
            let s2 = drop_leading(s1);
            if s2.len() > 0 && s2[0] == ':' {
                let s3 = drop_leading(s2.skip(1));
                match p_value(s3) {
                    None => None,
                    Some((v, s4)) => Some(((key, v), s4)),
                }
            } else {
                None
            }
        },
    }
}

pub proof fn lemma_drop_leading_len(s: Seq<char>)
    ensures
        drop_leading(s).len() <= s.len(),
    decreases s.len(),
{
    if s.len() > 0 && is_space(s[0]) {
        lemma_drop_leading_len(s.drop_first());
    }
}

pub proof fn lemma_p_field_consumes(s: Seq<char>)
    ensures
        p_field(s) is Some ==> p_field(s)->Some_0.1.len() < s.len(),
{
    let s0 = drop_leading(s);
    lemma_drop_leading_len(s);
    crate::codec::lemma_p_string_consumes(s0);
    match p_string(s0) {
        None => {},
        Some((key, s1)) => {
            let s2 = drop_leading(s1);
            lemma_drop_leading_len(s1);
            if s2.len() > 0 && s2[0] == ':' {
                let s3 = drop_leading(s2.skip(1));
                lemma_drop_leading_len(s2.skip(1));
                lemma_p_value_consumes(s3);
            }
        },
    }
}

/// One or more comma-separated fields.
pub open spec fn p_fields(s: Seq<char>) -> Option<(Seq<(Seq<char>, FieldVal)>, Seq<char>)>
    decreases s.len(),
    via p_fields_dec
{
    match p_field(s) {
        None => None,
        Some((f, rest)) => {
            let r0 = drop_leading(rest);
            if r0.len() > 0 && r0[0] == ',' {
                match p_fields(r0.skip(1)) {
                    None => None,
                    Some((fs, r1)) => Some((seq![f] + fs, r1)),
                }
            } else {
                Some((seq![f], rest))
            }
        },
    }
}

#[via_fn]
proof fn p_fields_dec(s: Seq<char>) {
    lemma_p_field_consumes(s);
    match p_field(s) {
        None => {},
        Some((f, rest)) => {
            lemma_drop_leading_len(rest);
        },
    }
}

/// A whole frame: one flat object with nothing but whitespace around it.
pub open spec fn p_frame(s: Seq<char>) -> Option<Seq<(Seq<char>, FieldVal)>> {
    let s0 = drop_leading(s);
    if s0.len() > 0 && s0[0] == '{' {
        let s1 = drop_leading(s0.skip(1));
        if s1.len() > 0 && s1[0] == '}' {
            if drop_leading(s1.skip(1)).len() == 0 {
                Some(Seq::empty())
            } else {
                None
            }
        } else {
            match p_fields(s0.skip(1)) {
                None => None,
                Some((fs, rest)) => {
                    let r0 = drop_leading(rest);
                    if r0.len() > 0 && r0[0] == '}' && drop_leading(r0.skip(1)).len() == 0 {
                        Some(fs)
                    } else {
                        None
                    }
                },
            }
        }
    } else {
        None
    }
}

/// The value of the last field with this key: of two fields under one
/// name, the later wins.
pub open spec fn lookup(fields: Seq<(Seq<char>, FieldVal)>, key: Seq<char>) -> Option<FieldVal>
    decreases fields.len(),
{
    if fields.len() == 0 {
        None
    } else {
        let r = lookup(fields.drop_first(), key);
        if r is Some {
            r
        } else if fields[0].0 == key {
            Some(fields[0].1)
        } else {
            None
        }
    }
}

// ---------------------------------------------------------------------------
// Messages.
// ---------------------------------------------------------------------------

pub open spec fn key_type() -> Seq<char> {
    "type"@
}

pub open spec fn key_device_name() -> Seq<char> {
    "device_name"@
}

pub open spec fn key_shortcut_id() -> Seq<char> {
    "shortcut_id"@
}

pub open spec fn key_interval_ms() -> Seq<char> {
    "interval_ms"@
}

pub open spec fn val_device_info() -> Seq<char> {
    "device_info"@
}

pub open spec fn val_execute_shortcut() -> Seq<char> {
    "execute_shortcut"@
}

/// The sentinel frame sent to a peer whose pairing attempt was rejected.
pub open spec fn rejection_frame() -> Seq<char> {
    "connection_rejected"@
}

/// One decoded control message.
pub enum ControlMessage {
    /// A companion device asks to pair under this name.
    DeviceInfo { device_name: String },
    /// Run the stored shortcut with this id, with an optional pause
    /// between its combo steps.
    ExecuteShortcut { shortcut_id: u64, interval_ms: Option<u64> },
    /// Anything else: ignored, never fatal.
    Unknown,
}

/// The mathematical value of a [`ControlMessage`].
pub enum ControlMessageV {
    DeviceInfoV { device_name: Seq<char> },
    ExecuteShortcutV { shortcut_id: u64, interval_ms: Option<u64> },
    UnknownV,
}

impl View for ControlMessage {
    type V = ControlMessageV;

    open spec fn view(&self) -> ControlMessageV {
        match self {
            ControlMessage::DeviceInfo { device_name } => ControlMessageV::DeviceInfoV {
                device_name: device_name@,
            },
            ControlMessage::ExecuteShortcut { shortcut_id, interval_ms } => {
                ControlMessageV::ExecuteShortcutV {
                    shortcut_id: *shortcut_id,
                    interval_ms: *interval_ms,
                }
            },
            ControlMessage::Unknown => ControlMessageV::UnknownV,
        }
    }
}

/// What a frame means: `device_info` with a name pairs a device,
/// `execute_shortcut` with an id runs a shortcut, and any frame that does
/// not decode, or lacks the field its type needs, means nothing.
pub open spec fn spec_message(s: Seq<char>) -> ControlMessageV {
    match p_frame(s) {
        None => ControlMessageV::UnknownV,
        Some(fields) => {
            if lookup(fields, key_type()) == Some(FieldVal::StrV(val_device_info())) {
                match lookup(fields, key_device_name()) {
                    Some(FieldVal::StrV(n)) => ControlMessageV::DeviceInfoV { device_name: n },
                    _ => ControlMessageV::UnknownV,
                }
            } else if lookup(fields, key_type()) == Some(
                FieldVal::StrV(val_execute_shortcut()),
            ) {
                match lookup(fields, key_shortcut_id()) {
                    Some(FieldVal::NumV(id)) => ControlMessageV::ExecuteShortcutV {
                        shortcut_id: id,
                        interval_ms: (match lookup(fields, key_interval_ms()) {
                            Some(FieldVal::NumV(v)) => Some(v),
                            _ => None,
                        }),
                    },
                    _ => ControlMessageV::UnknownV,
                }
            } else {
                ControlMessageV::UnknownV
            }
        },
    }
}

// ---------------------------------------------------------------------------
// The executable frame parser.
// ---------------------------------------------------------------------------

fn skip_ws(s: &Vec<char>, i: usize) -> (r: usize)
    requires
        i <= s@.len(),
    ensures
        i <= r <= s@.len(),
        s@.skip(r as int) == drop_leading(s@.skip(i as int)),
    decreases s@.len() - i,
{
    let mut r = i;
    while r < s.len() && is_space_char(s[r])
        invariant
            i <= r <= s@.len(),
            drop_leading(s@.skip(i as int)) == drop_leading(s@.skip(r as int)),
        decreases s@.len() - r,
    {
        proof {
            assert(s@.skip(r as int)[0] == s@[r as int]);
            assert(s@.skip(r as int).drop_first() =~= s@.skip(r as int + 1));
        }
        r += 1;
    }
    proof {
        if r < s@.len() {
            assert(s@.skip(r as int)[0] == s@[r as int]);
        }
        assert(drop_leading(s@.skip(r as int)) == s@.skip(r as int));
    }
    r
}

fn parse_value(s: &Vec<char>, i: usize) -> (r: Option<(ParsedVal, usize)>)
    requires
        i <= s@.len(),
    ensures
        match r {
            Some((v, j)) => i < j <= s@.len() && p_value(s@.skip(i as int)) == Some((
                v@,
                s@.skip(j as int),
            )),
            None => p_value(s@.skip(i as int)) is None,
        },
{
    if i < s.len() && s[i] == '"' {
        proof {
            assert(s@.skip(i as int)[0] == '"');
        }
        match parse_string(s, i) {
            Some((v, j)) => Some((ParsedVal::PStr(v), j)),
            None => None,
        }
    } else {
        proof {
            if i < s@.len() {
                assert(s@.skip(i as int)[0] == s@[i as int]);
            }
        }
        match parse_num(s, i) {
            Some((n, j)) => Some((ParsedVal::PNum(n), j)),
            None => None,
        }
    }
}

fn parse_field(s: &Vec<char>, i: usize) -> (r: Option<((Vec<char>, ParsedVal), usize)>)
    requires
        i <= s@.len(),
    ensures
        match r {
            Some(((k, v), j)) => i < j <= s@.len() && p_field(s@.skip(i as int)) == Some((
                (k@, v@),
                s@.skip(j as int),
            )),
            None => p_field(s@.skip(i as int)) is None,
        },
{
    let i0 = skip_ws(s, i);
    let (key, i1) = match parse_string(s, i0) {
        Some(x) => x,
        None => {
            return None;
        },
    };
    let i2 = skip_ws(s, i1);
    if !(i2 < s.len() && s[i2] == ':') {
        proof {
            if i2 < s@.len() {
                assert(s@.skip(i2 as int)[0] == s@[i2 as int]);
            }
        }
        return None;
    }
    proof {
        assert(s@.skip(i2 as int)[0] == ':');
        assert(s@.skip(i2 as int).skip(1) =~= s@.skip(i2 as int + 1));
    }
    let i3 = skip_ws(s, i2 + 1);
    match parse_value(s, i3) {
        Some((v, i4)) => Some(((key, v), i4)),
        None => None,
    }
}

fn parse_fields(s: &Vec<char>, i: usize) -> (r: Option<(Vec<(Vec<char>, ParsedVal)>, usize)>)
    requires
        i <= s@.len(),
    ensures
        match r {
            Some((fs, j)) => i < j <= s@.len() && p_fields(s@.skip(i as int)) == Some((
                fs.deep_view(),
                s@.skip(j as int),
            )),
            None => p_fields(s@.skip(i as int)) is None,
        },
    decreases s@.len() - i,
{
    match parse_field(s, i) {
        None => None,
        Some((f, j)) => {
            let j0 = skip_ws(s, j);
            if j0 < s.len() && s[j0] == ',' {
                proof {
                    assert(s@.skip(j0 as int)[0] == ',');
                    assert(s@.skip(j0 as int).skip(1) =~= s@.skip(j0 as int + 1));
                }
                match parse_fields(s, j0 + 1) {
                    None => None,
                    Some((mut fs, l)) => {
                        let ghost prev = fs.deep_view();
                        let ghost fv = (f.0@, f.1@);
                        proof {
                            assert(f.deep_view() == fv);
                        }
                        fs.insert(0, f);
                        proof {
                            assert(fs.deep_view() =~= seq![fv] + prev);
                        }
                        Some((fs, l))
                    },
                }
            } else {
                proof {
                    if j0 < s@.len() {
                        assert(s@.skip(j0 as int)[0] == s@[j0 as int]);
                    }
                    assert(s@.skip(j0 as int).len() == 0 || s@.skip(j0 as int)[0] != ',');
                }
                let ghost fv = (f.0@, f.1@);
                proof {
                    assert(f.deep_view() == fv);
                }
                let rv = vec![f];
                proof {
                    assert(rv.deep_view() =~= seq![fv]);
                }
                Some((rv, j))
            }
        },
    }
}

/// The frame's fields, if the text is one flat object and nothing more.
fn parse_frame(s: &Vec<char>) -> (r: Option<Vec<(Vec<char>, ParsedVal)>>)
    ensures
        match r {
            Some(fs) => p_frame(s@) == Some(fs.deep_view()),
            None => p_frame(s@) is None,
        },
{
    proof {
        assert(s@.skip(0) =~= s@);
    }
    let i0 = skip_ws(s, 0);
    if !(i0 < s.len() && s[i0] == '{') {
        proof {
            if i0 < s@.len() {
                assert(s@.skip(i0 as int)[0] == s@[i0 as int]);
            }
        }
        return None;
    }
    proof {
        assert(s@.skip(i0 as int)[0] == '{');
        assert(s@.skip(i0 as int).skip(1) =~= s@.skip(i0 as int + 1));
    }
    let i1 = skip_ws(s, i0 + 1);
    if i1 < s.len() && s[i1] == '}' {
        proof {
            assert(s@.skip(i1 as int)[0] == '}');
            assert(s@.skip(i1 as int).skip(1) =~= s@.skip(i1 as int + 1));
        }
        let i2 = skip_ws(s, i1 + 1);
        if i2 == s.len() {
            let rv: Vec<(Vec<char>, ParsedVal)> = Vec::new();
            proof {
                assert(s@.skip(i2 as int).len() == 0);
                assert(rv.deep_view() =~= Seq::<(Seq<char>, FieldVal)>::empty());
            }
            return Some(rv);
        } else {
            proof {
                assert(s@.skip(i2 as int).len() > 0);
            }
            return None;
        }
    }
    proof {
        if i1 < s@.len() {
            assert(s@.skip(i1 as int)[0] == s@[i1 as int]);
        }
    }
    match parse_fields(s, i0 + 1) {
        None => None,
        Some((fs, j)) => {
            let j0 = skip_ws(s, j);
            if !(j0 < s.len() && s[j0] == '}') {
                proof {
                    if j0 < s@.len() {
                        assert(s@.skip(j0 as int)[0] == s@[j0 as int]);
                    }
                }
                return None;
            }
            proof {
                assert(s@.skip(j0 as int)[0] == '}');
                assert(s@.skip(j0 as int).skip(1) =~= s@.skip(j0 as int + 1));
            }
            let j1 = skip_ws(s, j0 + 1);
            if j1 == s.len() {
                proof {
                    assert(s@.skip(j1 as int).len() == 0);
                }
                Some(fs)
            } else {
                proof {
                    assert(s@.skip(j1 as int).len() > 0);
                }
                None
            }
        },
    }
}

} // verus!

verus! {

// ---------------------------------------------------------------------------
// Field lookup.
// ---------------------------------------------------------------------------

proof fn lemma_lookup_none(fields: Seq<(Seq<char>, FieldVal)>, key: Seq<char>)
    requires
        forall|x: int| 0 <= x < fields.len() ==> (#[trigger] fields[x]).0 != key,
    ensures
        lookup(fields, key) is None,
    decreases fields.len(),
{
    if fields.len() > 0 {
        lemma_lookup_none(fields.drop_first(), key);
    }
}

proof fn lemma_lookup_at(fields: Seq<(Seq<char>, FieldVal)>, key: Seq<char>, p: int)
    requires
        0 <= p < fields.len(),
        fields[p].0 == key,
        forall|x: int| p < x < fields.len() ==> (#[trigger] fields[x]).0 != key,
    ensures
        lookup(fields, key) == Some(fields[p].1),
    decreases fields.len(),
{
    if p == 0 {
        assert forall|x: int| 0 <= x < fields.drop_first().len() implies (
        #[trigger] fields.drop_first()[x]).0 != key by {
            assert(fields.drop_first()[x] == fields[x + 1]);
        }
        lemma_lookup_none(fields.drop_first(), key);
    } else {
        assert(fields.drop_first()[p - 1] == fields[p]);
        assert forall|x: int| p - 1 < x < fields.drop_first().len() implies (
        #[trigger] fields.drop_first()[x]).0 != key by {
            assert(fields.drop_first()[x] == fields[x + 1]);
        }
        lemma_lookup_at(fields.drop_first(), key, p - 1);
    }
}

fn chars_eq(a: &Vec<char>, b: &Vec<char>) -> (r: bool)
    ensures
        r == (a@ == b@),
{
    if a.len() != b.len() {
        return false;
    }
    let mut i: usize = 0;
    while i < a.len()
        invariant
            a@.len() == b@.len(),
            i <= a@.len(),
            forall|x: int| 0 <= x < i ==> a@[x] == b@[x],
        decreases a@.len() - i,
    {
        if a[i] != b[i] {
            return false;
        }
        i += 1;
    }
    proof {
        assert(a@ =~= b@);
    }
    true
}

/// The position whose field the decoder would take for this key: the last
/// one so named.
fn lookup_pos(fields: &Vec<(Vec<char>, ParsedVal)>, key: &Vec<char>) -> (r: Option<usize>)
    ensures
        match r {
            Some(p) => p < fields@.len() && lookup(fields.deep_view(), key@) == Some(
                fields.deep_view()[p as int].1,
            ),
            None => lookup(fields.deep_view(), key@) is None,
        },
{
    let ghost fd = fields.deep_view();
    let mut x = fields.len();
    while x > 0
        invariant
            fd == fields.deep_view(),
            x <= fd.len(),
            forall|y: int| x <= y < fd.len() ==> (#[trigger] fd[y]).0 != key@,
        decreases x,
    {
        x -= 1;
        if chars_eq(&fields[x].0, key) {
            proof {
                assert(fd[x as int] == fields@[x as int].deep_view());
                assert(fields@[x as int].0.deep_view() =~= fields@[x as int].0@);
                assert(fd[x as int].0 == key@);
                lemma_lookup_at(fd, key@, x as int);
            }
            return Some(x);
        }
        proof {
            assert(fd[x as int] == fields@[x as int].deep_view());
            assert(fields@[x as int].0.deep_view() =~= fields@[x as int].0@);
            assert(fd[x as int].0 != key@);
        }
    }
    proof {
        lemma_lookup_none(fd, key@);
    }
    None
}

/// Decodes one inbound frame into the message it carries.
pub fn parse_message(frame: &str) -> (r: ControlMessage)
    ensures
        r@ == spec_message(frame@),
{
    let cs = chars_of_str(frame);
    let fields = match parse_frame(&cs) {
        Some(f) => f,
        None => {
            return ControlMessage::Unknown;
        },
    };
    let ghost fd = fields.deep_view();
    let key_t = chars_of_str("type");
    let tpos = match lookup_pos(&fields, &key_t) {
        Some(p) => p,
        None => {
            return ControlMessage::Unknown;
        },
    };
    proof {
        assert(fd[tpos as int] == fields@[tpos as int].deep_view());
    }
    match &fields[tpos].1 {
        ParsedVal::PNum(_) => ControlMessage::Unknown,
        ParsedVal::PStr(tname) => {
            if chars_eq(tname, &chars_of_str("device_info")) {
                proof {
                    assert(lookup(fd, key_type()) == Some(FieldVal::StrV(val_device_info())));
                }
                let key_dn = chars_of_str("device_name");
                match lookup_pos(&fields, &key_dn) {
                    None => ControlMessage::Unknown,
                    Some(p) => {
                        proof {
                            assert(fd[p as int] == fields@[p as int].deep_view());
                        }
                        match &fields[p].1 {
                            ParsedVal::PStr(n) => {
                                let name = string_from_chars(n);
                                ControlMessage::DeviceInfo { device_name: name }
                            },
                            ParsedVal::PNum(_) => ControlMessage::Unknown,
                        }
                    },
                }
            } else if chars_eq(tname, &chars_of_str("execute_shortcut")) {
                proof {
                    assert(lookup(fd, key_type()) == Some(FieldVal::StrV(val_execute_shortcut())));
                    assert(lookup(fd, key_type()) != Some(FieldVal::StrV(val_device_info())));
                }
                let key_id = chars_of_str("shortcut_id");
                match lookup_pos(&fields, &key_id) {
                    None => ControlMessage::Unknown,
                    Some(p) => {
                        proof {
                            assert(fd[p as int] == fields@[p as int].deep_view());
                        }
                        let id = match &fields[p].1 {
                            ParsedVal::PNum(n) => *n,
                            ParsedVal::PStr(_) => {
                                return ControlMessage::Unknown;
                            },
                        };
                        let key_iv = chars_of_str("interval_ms");
                        let interval_ms = match lookup_pos(&fields, &key_iv) {
                            None => None,
                            Some(q) => {
                                proof {
                                    assert(fd[q as int] == fields@[q as int].deep_view());
                                }
                                match &fields[q].1 {
                                    ParsedVal::PNum(v) => Some(*v),
                                    ParsedVal::PStr(_) => None,
                                }
                            },
                        };
                        ControlMessage::ExecuteShortcut { shortcut_id: id, interval_ms }
                    },
                }
            } else {
                proof {
                    assert(fields@[tpos as int].1@ == FieldVal::StrV(tname@));
                    assert(lookup(fd, key_type()) != Some(FieldVal::StrV(val_device_info())));
                    assert(lookup(fd, key_type()) != Some(FieldVal::StrV(val_execute_shortcut())));
                }
                ControlMessage::Unknown
            }
        },
    }
}

} // verus!

verus! {

// ---------------------------------------------------------------------------
// Dispatch.
// ---------------------------------------------------------------------------

/// One thing the connection loop must do for a frame, in order.
pub enum SessionAction {
    /// Write this text frame to the peer.
    SendFrame(String),
    /// Tell the UI that the device list changed.
    NotifyDevicesChanged,
    /// Run this injection plan off the critical path, without awaiting it.
    RunPlan(Vec<KeyEvent>),
}

/// The mathematical value of a [`SessionAction`].
pub enum SessionActionV {
    SendFrameV(Seq<char>),
    NotifyDevicesChangedV,
    RunPlanV(Seq<KeyEvent>),
}

impl View for SessionAction {
    type V = SessionActionV;

    open spec fn view(&self) -> SessionActionV {
        match self {
            SessionAction::SendFrame(s) => SessionActionV::SendFrameV(s@),
            SessionAction::NotifyDevicesChanged => SessionActionV::NotifyDevicesChangedV,
            SessionAction::RunPlan(p) => SessionActionV::RunPlanV(p@),
        }
    }
}

impl DeepView for SessionAction {
    type V = SessionActionV;

    open spec fn deep_view(&self) -> SessionActionV {
        self.view()
    }
}

/// The interval a message asks for, or the default.
pub open spec fn interval_of(iv: Option<u64>) -> u64 {
    match iv {
        Some(v) => v,
        None => DEFAULT_INTERVAL_MS,
    }
}

/// One inbound frame, decided. A `device_info` pairs the device and pushes
/// the full shortcut list, or is rejected with the sentinel frame while a
/// device is already paired, the existing session untouched. An
/// `execute_shortcut` plans the named shortcut's events; an unknown id,
/// like an unknown frame, is ignored and never ends the connection.
pub fn handle_frame(state: &mut AppState, shortcuts: &Vec<Shortcut>, frame: &str) -> (r: Vec<
    SessionAction,
>)
    requires
        unique_ids(shortcuts.deep_view()),
    ensures
        match spec_message(frame@) {
            ControlMessageV::DeviceInfoV { device_name } => {
                if old(state).device_view() is Some {
                    &&& *final(state) == *old(state)
                    &&& r.deep_view() == seq![SessionActionV::SendFrameV(rejection_frame())]
                } else {
                    &&& final(state).device_view() == Some(
                        DeviceV { name: device_name, connected: true },
                    )
                    &&& r.deep_view() == seq![
                        SessionActionV::NotifyDevicesChangedV,
                        SessionActionV::SendFrameV(
                            crate::codec::doc_chars(shortcuts.deep_view()),
                        ),
                    ]
                }
            },
            ControlMessageV::ExecuteShortcutV { shortcut_id, interval_ms } => {
                &&& *final(state) == *old(state)
                &&& if has_id(shortcuts.deep_view(), shortcut_id) {
                    exists|p: int|
                        0 <= p < shortcuts.deep_view().len() && (#[trigger] shortcuts.deep_view()[p]).id
                            == shortcut_id && r.deep_view() == seq![
                            SessionActionV::RunPlanV(
                                spec_plan_sequence(
                                    shortcuts.deep_view()[p].sequence,
                                    interval_of(interval_ms),
                                ),
                            ),
                        ]
                } else {
                    r.deep_view() == Seq::<SessionActionV>::empty()
                }
            },
            ControlMessageV::UnknownV => {
                &&& *final(state) == *old(state)
                &&& r.deep_view() == Seq::<SessionActionV>::empty()
            },
        },
{
    let msg = parse_message(frame);
    match msg {
        ControlMessage::DeviceInfo { device_name } => {
            match state.handle_device_info(device_name) {
                PairingOutcome::Rejected => {
                    let f = String::from_str("connection_rejected");
                    let rv = vec![SessionAction::SendFrame(f)];
                    proof {
                        assert(rv.deep_view() =~= seq![
                            SessionActionV::SendFrameV(rejection_frame()),
                        ]);
                    }
                    rv
                },
                PairingOutcome::Accepted => {
                    let doc = crate::codec::encode_document(shortcuts);
                    let rv = vec![
                        SessionAction::NotifyDevicesChanged,
                        SessionAction::SendFrame(doc),
                    ];
                    proof {
                        assert(rv.deep_view() =~= seq![
                            SessionActionV::NotifyDevicesChangedV,
                            SessionActionV::SendFrameV(
                                crate::codec::doc_chars(shortcuts.deep_view()),
                            ),
                        ]);
                    }
                    rv
                },
            }
        },
        ControlMessage::ExecuteShortcut { shortcut_id, interval_ms } => {
            match crate::registry::find_pos(shortcuts, shortcut_id) {
                None => {
                    let rv: Vec<SessionAction> = Vec::new();
                    proof {
                        assert(rv.deep_view() =~= Seq::<SessionActionV>::empty());
                    }
                    rv
                },
                Some(p) => {
                    let plan = plan_sequence(&shortcuts[p].sequence, interval_ms);
                    proof {
                        assert(shortcuts.deep_view()[p as int].sequence == shortcuts@[p as int]
                            .sequence.deep_view());
                    }
                    let rv = vec![SessionAction::RunPlan(plan)];
                    proof {
                        assert(rv.deep_view() =~= seq![
                            SessionActionV::RunPlanV(
                                spec_plan_sequence(
                                    shortcuts.deep_view()[p as int].sequence,
                                    interval_of(interval_ms),
                                ),
                            ),
                        ]);
                    }
                    rv
                },
            }
        },
        ControlMessage::Unknown => {
            let rv: Vec<SessionAction> = Vec::new();
            proof {
                assert(rv.deep_view() =~= Seq::<SessionActionV>::empty());
            }
            rv
        },
    }
}

} // verus!
