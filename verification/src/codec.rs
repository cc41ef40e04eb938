//! Typed messages of the lighting bus and their ASCII-hex wire form.

use crate::buffers::{bytes_as_slice, bytes_contents, bytes_from_vec};
use bytes::Bytes;
use std::ops::BitOr;
use vstd::prelude::*;

verus! {

/// A mask of option flags for one device parameter.
#[derive(PartialEq, Eq, Debug, Clone, Copy, Structural)]
pub struct Setting(pub u8);

// Flags of the first options parameter.
pub const CONNECT: u8 = 0x01;
pub const SR_CHK: u8 = 0x08;
pub const SMART: u8 = 0x10;
pub const MONITOR: u8 = 0x20;
pub const ID_MON: u8 = 0x40;

// Flags of the third options parameter.
pub const PARAM_CHANGE_NOTIFY: u8 = 0x01;
pub const LOCAL_SAL: u8 = 0x02;
pub const POWER_UP_NOTIFY: u8 = 0x04;
pub const EX_STAT: u8 = 0x08;

impl BitOr for Setting {
    type Output = Setting;

    /// Combines two masks: a flag is set in the result when it is set in either.
    fn bitor(self, rhs: Self) -> (both: Setting) {
        Setting(self.0 | rhs.0)
    }
}

impl vstd::std_specs::ops::BitOrSpecImpl for Setting {
    open spec fn obeys_bitor_spec() -> bool {
        true
    }

    open spec fn bitor_req(self, rhs: Self) -> bool {
        true
    }

    open spec fn bitor_spec(self, rhs: Self) -> Setting {
        Setting(self.0 | rhs.0)
    }
}

/// The address of a device parameter.
#[derive(PartialEq, Eq, Debug, Clone, Copy, Structural)]
pub struct Param(pub u8);

// The parameter addresses that have a name.
pub const APPLICATION1: u8 = 0x21;
pub const APPLICATION2: u8 = 0x22;
pub const OPTIONS1: u8 = 0x30;
pub const OPTIONS1_NV: u8 = 0x41;
pub const OPTIONS3: u8 = 0x42;

/// A brightness, from `OFF` to `ON`.
#[derive(PartialEq, Eq, Debug, Clone, Copy, Structural)]
pub struct Level(pub u8);

pub const ON: u8 = 0xff;
pub const OFF: u8 = 0x00;

/// The address of a lighting group.
#[derive(PartialEq, Eq, Debug, Clone, Copy, Structural)]
pub struct Group(pub u8);

/// A requested dimming duration in seconds.
#[derive(PartialEq, Eq, Debug, Clone, Copy, Structural)]
pub struct Ramp(pub u16);

/// The sixteen `(code, seconds)` pairs the device understands, in increasing order.
pub const RAMP_CODES: [(u8, u16); 16] = [
    (0x02, 0),
    (0x0a, 4),
    (0x12, 8),
    (0x1a, 12),
    (0x22, 20),
    (0x2a, 30),
    (0x32, 40),
    (0x3a, 60),
    (0x42, 90),
    (0x4a, 120),
    (0x52, 180),
    (0x5a, 300),
    (0x62, 420),
    (0x6a, 600),
    (0x72, 900),
    (0x7a, 1020),
];

/// The longest duration the device can be asked for.
pub const RAMP_MAX: u16 = 1020;

/// The index of the first table entry with the given code, or 16 if there is none.
pub open spec fn code_index(code: u8) -> int {
    if exists|i: int| 0 <= i < 16 && RAMP_CODES[i].0 == code {
        choose|i: int| 0 <= i < 16 && RAMP_CODES[i].0 == code
    } else {
        16
    }
}

/// The duration a wire code stands for, if it is one of the sixteen.
pub open spec fn ramp_of_code(code: u8) -> Option<Ramp> {
    if code_index(code) < 16 {
        Some(Ramp(RAMP_CODES[code_index(code)].1))
    } else {
        None
    }
}

/// Whether a duration is one of the sixteen the device understands.
pub open spec fn is_canonical(seconds: u16) -> bool {
    exists|i: int| 0 <= i < 16 && RAMP_CODES[i].1 == seconds
}

/// The smallest canonical duration that is at least `seconds`; the longest
/// one when `seconds` is beyond it.
pub open spec fn round_up(seconds: u16) -> u16 {
    if seconds > RAMP_MAX {
        RAMP_MAX
    } else {
        choose|t: u16| is_canonical(t) && t >= seconds && forall|u: u16| is_canonical(u) && u >= seconds ==> t <= u
    }
}

/// The wire code for a duration: the code of the canonical duration that it
/// rounds up to.
pub open spec fn code_of_ramp(seconds: u16) -> u8 {
    choose|code: u8| ramp_of_code(code) == Some(Ramp(round_up(seconds)))
}

impl Ramp {
    /// Looks a wire code up in the table.
    pub fn decode(code: u8) -> (r: Option<Ramp>)
        ensures
            r == ramp_of_code(code),
            r matches Some(ramp) ==> is_canonical(ramp.0),
    {
        let mut i: usize = 0;
        while i < 16
            invariant
                i <= 16,
                forall|j: int| 0 <= j < i ==> RAMP_CODES[j].0 != code,
            decreases 16 - i,
        {
            let (c, s) = RAMP_CODES[i];
            if c == code {
                proof {
                    lemma_codes_distinct();
                }
                return Some(Ramp(s));
            }
            i += 1;
        }
        None
    }

    /// The wire code of the shortest canonical duration that is long enough.
    pub fn encode(&self) -> (code: u8)
        ensures
            code == code_of_ramp(self.0),
            ramp_of_code(code) == Some(Ramp(round_up(self.0))),
    {
        let secs = self.0;
        let mut i: usize = 0;
        while i < 16
            invariant
                i <= 16,
                secs == self.0,
                forall|j: int| 0 <= j < i ==> RAMP_CODES[j].1 < secs,
            decreases 16 - i,
        {
            let (c, s) = RAMP_CODES[i];
            if secs <= s {
                proof {
                    lemma_codes_distinct();
                    lemma_round_up(secs, i as int);
                    assert(code_index(RAMP_CODES[i as int].0) == i);
                    lemma_code_is_unique(c, code_of_ramp(secs));
                }
                return c;
            }
            i += 1;
        }
        proof {
            lemma_codes_distinct();
            assert(RAMP_CODES[15].1 < secs);
            assert(code_index(RAMP_CODES[15].0) == 15);
            lemma_code_is_unique(0x7a, code_of_ramp(secs));
        }
        0x7a
    }
}

/// No code and no duration occurs twice in the table, and both grow along it.
pub proof fn lemma_codes_distinct()
    ensures
        forall|i: int, j: int|
            0 <= i < j < 16 ==> RAMP_CODES[i].0 < RAMP_CODES[j].0 && RAMP_CODES[i].1
                < RAMP_CODES[j].1,
        forall|i: int| 0 <= i < 16 ==> code_index(#[trigger] RAMP_CODES[i].0) == i,
        RAMP_CODES[15].1 == RAMP_MAX,
{
    assert forall|i: int, j: int| 0 <= i < j < 16 implies RAMP_CODES[i].0 < RAMP_CODES[j].0
        && RAMP_CODES[i].1 < RAMP_CODES[j].1 by {}
}

/// The entry at `i` is the rounding of `seconds` when it is the first that is long enough.
proof fn lemma_round_up(seconds: u16, i: int)
    requires
        0 <= i < 16,
        seconds <= RAMP_CODES[i].1,
        forall|j: int| 0 <= j < i ==> RAMP_CODES[j].1 < seconds,
    ensures
        round_up(seconds) == RAMP_CODES[i].1,
        is_canonical(round_up(seconds)),
        round_up(seconds) >= seconds,
        forall|u: u16| is_canonical(u) && u >= seconds ==> round_up(seconds) <= u,
{
    lemma_codes_distinct();
    let t = RAMP_CODES[i].1;
    assert(is_canonical(t));
    assert forall|u: u16| is_canonical(u) && u >= seconds implies t <= u by {
        let k = choose|k: int| 0 <= k < 16 && RAMP_CODES[k].1 == u;
        assert(k >= i);
    }
}


/// Two codes that stand for the same duration are the same code.
pub proof fn lemma_code_is_unique(a: u8, b: u8)
    requires
        ramp_of_code(a) is Some,
        ramp_of_code(a) == ramp_of_code(b),
    ensures
        a == b,
{
    lemma_codes_distinct();
    let i = code_index(a);
    let j = code_index(b);
    assert(RAMP_CODES[i].0 == a && RAMP_CODES[j].0 == b);
    if i < j {
        assert(RAMP_CODES[i].1 < RAMP_CODES[j].1);
    } else if j < i {
        assert(RAMP_CODES[j].1 < RAMP_CODES[i].1);
    }
}

/// The first table entry from `i` on that is long enough for `seconds`.
proof fn lemma_first_long_enough(seconds: u16, i: int) -> (k: int)
    requires
        0 <= i < 16,
        seconds <= RAMP_MAX,
        forall|j: int| 0 <= j < i ==> RAMP_CODES[j].1 < seconds,
    ensures
        i <= k < 16,
        seconds <= RAMP_CODES[k].1,
        forall|j: int| 0 <= j < k ==> RAMP_CODES[j].1 < seconds,
    decreases 16 - i,
{
    if seconds <= RAMP_CODES[i].1 {
        i
    } else {
        lemma_first_long_enough(seconds, i + 1)
    }
}

/// No canonical duration is longer than the longest.
proof fn lemma_canonical_in_range(u: u16)
    requires
        is_canonical(u),
    ensures
        u <= RAMP_MAX,
{
    let m = choose|m: int| 0 <= m < 16 && RAMP_CODES[m].1 == u;
    assert(RAMP_CODES[m].1 <= RAMP_CODES[15].1);
}

/// What rounding up does: a duration within the table's range becomes the
/// shortest canonical duration that is no shorter, so a canonical one stays
/// as it is; a duration beyond the range becomes the longest.
pub proof fn lemma_round_up_bounds(seconds: u16)
    ensures
        is_canonical(round_up(seconds)),
        seconds <= RAMP_MAX ==> round_up(seconds) >= seconds,
        seconds <= RAMP_MAX ==> forall|u: u16|
            is_canonical(u) && u >= seconds ==> round_up(seconds) <= u,
        seconds > RAMP_MAX ==> round_up(seconds) == RAMP_MAX,
        is_canonical(seconds) ==> round_up(seconds) == seconds,
{
    if seconds <= RAMP_MAX {
        let k = lemma_first_long_enough(seconds, 0);
        lemma_round_up(seconds, k);
    } else {
        assert(RAMP_CODES[15].1 == RAMP_MAX);
        assert(is_canonical(RAMP_MAX));
        if is_canonical(seconds) {
            lemma_canonical_in_range(seconds);
        }
    }
}

/// Encoding a duration and decoding the code gives the duration rounded up;
/// decoding a code and encoding the duration gives the code back.
pub proof fn lemma_ramp_round_trip(seconds: u16, code: u8)
    ensures
        ramp_of_code(code_of_ramp(seconds)) == Some(Ramp(round_up(seconds))),
        ramp_of_code(code) matches Some(ramp) ==> is_canonical(ramp.0) && code_of_ramp(ramp.0)
            == code,
{
    lemma_codes_distinct();
    lemma_round_up_bounds(seconds);
    let t = round_up(seconds);
    let k = choose|k: int| 0 <= k < 16 && RAMP_CODES[k].1 == t;
    assert(code_index(RAMP_CODES[k].0) == k);
    assert(ramp_of_code(RAMP_CODES[k].0) == Some(Ramp(t)));
    if ramp_of_code(code) is Some {
        let ramp = ramp_of_code(code).unwrap();
        let i = code_index(code);
        assert(RAMP_CODES[i].1 == ramp.0);
        lemma_round_up_bounds(ramp.0);
        lemma_code_is_unique(code, code_of_ramp(ramp.0));
    }
}

/// One message of the lighting bus.
#[derive(PartialEq, Debug, Clone)]
pub enum Message {
    SetParam(Param, Setting),
    SetVar(Group, Level, Ramp),
    Reset,
    StopRamp(Group),
    Status(Group, Vec<u8>),
    Unrecognised(Bytes),
}

/// What a `Message` says, with the bytes it carries as sequences.
pub enum MessageView {
    SetParam(Param, Setting),
    SetVar(Group, Level, Ramp),
    Reset,
    StopRamp(Group),
    Status(Group, Seq<u8>),
    Unrecognised(Seq<u8>),
}

impl View for Message {
    type V = MessageView;

    open spec fn view(&self) -> MessageView {
        match *self {
            Message::SetParam(p, s) => MessageView::SetParam(p, s),
            Message::SetVar(g, l, r) => MessageView::SetVar(g, l, r),
            Message::Reset => MessageView::Reset,
            Message::StopRamp(g) => MessageView::StopRamp(g),
            Message::Status(g, v) => MessageView::Status(g, v@),
            Message::Unrecognised(b) => MessageView::Unrecognised(bytes_contents(b)),
        }
    }
}

/// The value of one ASCII hex digit, in either case.
pub open spec fn hex_digit_value(c: u8) -> Option<u8> {
    if 0x30 <= c <= 0x39 {
        Some((c - 0x30) as u8)
    } else if 0x41 <= c <= 0x46 {
        Some((c - 0x41 + 10) as u8)
    } else if 0x61 <= c <= 0x66 {
        Some((c - 0x61 + 10) as u8)
    } else {
        None
    }
}

/// The byte that two ASCII hex digits spell, high digit first.
pub open spec fn hex_pair_value(hi: u8, lo: u8) -> Option<u8> {
    match (hex_digit_value(hi), hex_digit_value(lo)) {
        (Some(h), Some(l)) => Some((16 * h + l) as u8),
        _ => None,
    }
}

/// The byte spelled by the `k`-th pair of characters of `s`.
pub open spec fn pair_at(s: Seq<u8>, k: int) -> Option<u8> {
    hex_pair_value(s[2 * k], s[2 * k + 1])
}

/// Whether `s` is made of hex digit pairs and nothing else.
pub open spec fn is_hex_run(s: Seq<u8>) -> bool {
    s.len() % 2 == 0 && forall|k: int| 0 <= k < s.len() / 2 ==> (#[trigger] pair_at(s, k)) is Some
}

/// The bytes that a run of hex digit pairs spells.
pub open spec fn hex_values(s: Seq<u8>) -> Seq<u8> {
    Seq::new(s.len() / 2, |k: int| pair_at(s, k).unwrap())
}

fn hex_digit(c: u8) -> (r: Option<u8>)
    ensures
        r == hex_digit_value(c),
{
    if 0x30 <= c && c <= 0x39 {
        Some(c - 0x30)
    } else if 0x41 <= c && c <= 0x46 {
        Some(c - 0x41 + 10)
    } else if 0x61 <= c && c <= 0x66 {
        Some(c - 0x61 + 10)
    } else {
        None
    }
}

/// Reads a slice of exactly two hex digits as a byte.
pub fn hex_extract(raw: &[u8]) -> (r: Option<u8>)
    ensures
        r == if raw@.len() == 2 {
            hex_pair_value(raw@[0], raw@[1])
        } else {
            None
        },
{
    if raw.len() != 2 {
        return None;
    }
    match (hex_digit(raw[0]), hex_digit(raw[1])) {
        (Some(h), Some(l)) => Some(16 * h + l),
        _ => None,
    }
}

/// Takes one hex-encoded byte off the front of the input. Gives the rest of
/// the input and the byte, or nothing when the input does not start with two
/// hex digits.
pub fn hex_byte(input: &[u8]) -> (r: Option<(&[u8], u8)>)
    ensures
        match r {
            Some((rest, value)) => input@.len() >= 2 && hex_pair_value(input@[0], input@[1])
                == Some(value) && rest@ == input@.skip(2),
            None => input@.len() < 2 || hex_pair_value(input@[0], input@[1]) is None,
        },
{
    if input.len() < 2 {
        return None;
    }
    match hex_extract(vstd::slice::slice_subrange(input, 0, 2)) {
        Some(value) => Some((vstd::slice::slice_subrange(input, 2, input.len()), value)),
        None => None,
    }
}


/// `05`, the first characters of a command line.
pub const COMMAND_TAG: [u8; 2] = [0x30, 0x35];

/// `3800`, what follows the address in a command line.
pub const LIGHTING_TAG: [u8; 4] = [0x33, 0x38, 0x30, 0x30];

/// `86`, the first characters of a status line.
pub const STATUS_TAG: [u8; 2] = [0x38, 0x36];

/// `00`, the characters of a status line at position 6.
pub const STATUS_ZERO_TAG: [u8; 2] = [0x30, 0x30];

/// `4038`, the characters of a status line at position 10.
pub const STATUS_REPORT_TAG: [u8; 4] = [0x34, 0x30, 0x33, 0x38];

/// The rate byte of the short command that switches a group on.
pub const RATE_ON: u8 = 0x79;

/// The rate byte of the short command that switches a group off.
pub const RATE_OFF: u8 = 0x01;

/// The rate byte of the short command that stops a running ramp.
pub const RATE_STOP: u8 = 0x09;

/// Whether `s` carries the characters of `tag` from position `at` on.
pub open spec fn has_tag(s: Seq<u8>, at: int, tag: Seq<u8>) -> bool {
    at + tag.len() <= s.len() && s.skip(at).take(tag.len() as int) == tag
}

/// The message that the fields of a command line stand for. Without a
/// checksum only the three short commands exist, and the third field is not
/// read; with one, the rate has to be a ramp code.
pub open spec fn command_of(rate: u8, group: u8, level: u8, check: Option<u8>) -> Option<
    Message,
> {
    match check {
        None => if rate == RATE_ON {
            Some(Message::SetVar(Group(group), Level(ON), Ramp(0)))
        } else if rate == RATE_OFF {
            Some(Message::SetVar(Group(group), Level(OFF), Ramp(0)))
        } else if rate == RATE_STOP {
            Some(Message::StopRamp(Group(group)))
        } else {
            None
        },
        Some(_) => match ramp_of_code(rate) {
            Some(ramp) => Some(Message::SetVar(Group(group), Level(level), ramp)),
            None => None,
        },
    }
}

/// What a line says when read as a command: `05`, two characters that are
/// not looked at, `3800`, then three hex bytes (rate, group, level) and
/// perhaps a fourth, and nothing after them.
pub open spec fn command_form(s: Seq<u8>) -> Option<Message> {
    if (s.len() == 14 || s.len() == 16) && has_tag(s, 0, COMMAND_TAG@) && has_tag(
        s,
        4,
        LIGHTING_TAG@,
    ) && is_hex_run(s.skip(8)) {
        let f = hex_values(s.skip(8));
        command_of(
            f[0],
            f[1],
            f[2],
            if f.len() == 4 {
                Some(f[3])
            } else {
                None
            },
        )
    } else {
        None
    }
}

/// What a line says when read as a status report: `86`, four characters
/// that are not looked at, `00`, two more of those, `4038`, then hex bytes to
/// the end of the line: the group offset, the payload, and one last byte
/// that is left out.
pub open spec fn status_form(s: Seq<u8>) -> Option<MessageView> {
    if s.len() >= 18 && has_tag(s, 0, STATUS_TAG@) && has_tag(s, 6, STATUS_ZERO_TAG@) && has_tag(
        s,
        10,
        STATUS_REPORT_TAG@,
    ) && is_hex_run(s.skip(14)) {
        let f = hex_values(s.skip(14));
        Some(MessageView::Status(Group(f[0]), f.subrange(1, f.len() - 1)))
    } else {
        None
    }
}

/// What a line says: a command, else a status report, else nothing that is
/// recognised, and then the line itself is kept.
pub open spec fn decode_spec(s: Seq<u8>) -> MessageView {
    match command_form(s) {
        Some(m) => m@,
        None => match status_form(s) {
            Some(v) => v,
            None => MessageView::Unrecognised(s),
        },
    }
}

/// Takes the characters of `lit` off the front of the input, if they are there.
fn tag<'a>(input: &'a [u8], lit: &[u8]) -> (r: Option<&'a [u8]>)
    ensures
        match r {
            Some(rest) => has_tag(input@, 0, lit@) && rest@ == input@.skip(lit@.len() as int),
            None => !has_tag(input@, 0, lit@),
        },
{
    if input.len() < lit.len() {
        return None;
    }
    let mut i: usize = 0;
    while i < lit.len()
        invariant
            i <= lit@.len() <= input@.len(),
            forall|j: int| 0 <= j < i ==> input@[j] == lit@[j],
        decreases lit@.len() - i,
    {
        if input[i] != lit[i] {
            assert(input@.skip(0).take(lit@.len() as int)[i as int] != lit@[i as int]);
            return None;
        }
        i += 1;
    }
    assert(input@.skip(0).take(lit@.len() as int) =~= lit@);
    Some(vstd::slice::slice_subrange(input, lit.len(), input.len()))
}

/// Takes `count` characters off the front of the input without looking at them.
fn take(input: &[u8], count: usize) -> (r: Option<&[u8]>)
    ensures
        match r {
            Some(rest) => count <= input@.len() && rest@ == input@.skip(count as int),
            None => count > input@.len(),
        },
{
    if input.len() < count {
        None
    } else {
        Some(vstd::slice::slice_subrange(input, count, input.len()))
    }
}

/// The message for the fields of a command line.
pub fn command_from_parts(parts: (u8, u8, u8, Option<u8>)) -> (r: Option<Message>)
    ensures
        r == command_of(parts.0, parts.1, parts.2, parts.3),
{
    let (rate, group, level, check) = parts;
    match check {
        None => {
            if rate == RATE_ON {
                Some(Message::SetVar(Group(group), Level(ON), Ramp(0)))
            } else if rate == RATE_OFF {
                Some(Message::SetVar(Group(group), Level(OFF), Ramp(0)))
            } else if rate == RATE_STOP {
                Some(Message::StopRamp(Group(group)))
            } else {
                None
            }
        },
        Some(_) => match Ramp::decode(rate) {
            Some(ramp) => Some(Message::SetVar(Group(group), Level(level), ramp)),
            None => None,
        },
    }
}

/// The message for the fields of a status line: the group offset and the
/// bytes after it, of which the last is a checksum and is left out.
pub fn status_from_parts(parts: (u8, Vec<u8>)) -> (r: Option<Message>)
    ensures
        parts.1@.len() == 0 ==> r is None,
        parts.1@.len() > 0 ==> (r matches Some(m) && m@ == MessageView::Status(
            Group(parts.0),
            parts.1@.drop_last(),
        )),
{
    let (offset, mut status) = parts;
    match status.pop() {
        Some(_) => Some(Message::Status(Group(offset), status)),
        None => None,
    }
}


/// Reads the whole input as a command line.
fn command_pattern(input: &[u8]) -> (r: Option<Message>)
    ensures
        r == command_form(input@),
{
    let ghost s = input@;
    let rest = match tag(input, COMMAND_TAG.as_slice()) {
        Some(rest) => rest,
        None => {
            return None;
        },
    };
    let rest = match take(rest, 2) {
        Some(rest) => rest,
        None => {
            return None;
        },
    };
    assert(rest@ =~= s.skip(4));
    let rest = match tag(rest, LIGHTING_TAG.as_slice()) {
        Some(rest) => rest,
        None => {
            assert(s.skip(4).skip(0) =~= s.skip(4));
            return None;
        },
    };
    assert(s.skip(4).skip(0) =~= s.skip(4));
    assert(rest@ =~= s.skip(8));
    let ghost t = s.skip(8);
    let (rest, rate) = match hex_byte(rest) {
        Some(found) => found,
        None => {
            assert(t.len() >= 2 ==> pair_at(t, 0) is None);
            return None;
        },
    };
    assert(rest@ =~= t.skip(2));
    let (rest, group) = match hex_byte(rest) {
        Some(found) => found,
        None => {
            assert(t.len() >= 4 ==> pair_at(t, 1) is None);
            return None;
        },
    };
    assert(rest@ =~= t.skip(4));
    let (rest, level) = match hex_byte(rest) {
        Some(found) => found,
        None => {
            assert(t.len() >= 6 ==> pair_at(t, 2) is None);
            return None;
        },
    };
    assert(rest@ =~= t.skip(6));
    assert(pair_at(t, 0) == Some(rate) && pair_at(t, 1) == Some(group) && pair_at(t, 2) == Some(
        level,
    ));
    let (rest, check) = match hex_byte(rest) {
        Some((rest, check)) => (rest, Some(check)),
        None => {
            assert(t.len() >= 8 ==> pair_at(t, 3) is None);
            (rest, None)
        },
    };
    if rest.len() != 0 {
        return None;
    }
    proof {
        if check is Some {
            assert(pair_at(t, 3) == check);
        }
        assert(is_hex_run(t));
        let f = hex_values(t);
        assert(f[0] == rate && f[1] == group && f[2] == level);
    }
    command_from_parts((rate, group, level, check))
}

/// Reads the whole input as a status line.
fn status_pattern(input: &[u8]) -> (r: Option<Message>)
    ensures
        match r {
            Some(m) => status_form(input@) == Some(m@),
            None => status_form(input@) is None,
        },
{
    let ghost s = input@;
    let rest = match tag(input, STATUS_TAG.as_slice()) {
        Some(rest) => rest,
        None => {
            return None;
        },
    };
    let rest = match take(rest, 4) {
        Some(rest) => rest,
        None => {
            return None;
        },
    };
    assert(rest@ =~= s.skip(6));
    assert(s.skip(6).skip(0) =~= s.skip(6));
    let rest = match tag(rest, STATUS_ZERO_TAG.as_slice()) {
        Some(rest) => rest,
        None => {
            return None;
        },
    };
    let rest = match take(rest, 2) {
        Some(rest) => rest,
        None => {
            return None;
        },
    };
    assert(rest@ =~= s.skip(10));
    assert(s.skip(10).skip(0) =~= s.skip(10));
    let rest = match tag(rest, STATUS_REPORT_TAG.as_slice()) {
        Some(rest) => rest,
        None => {
            return None;
        },
    };
    assert(rest@ =~= s.skip(14));
    let ghost t = s.skip(14);
    let (rest, offset) = match hex_byte(rest) {
        Some(found) => found,
        None => {
            assert(t.len() >= 2 ==> pair_at(t, 0) is None);
            return None;
        },
    };
    assert(rest@ =~= t.skip(2));
    let mut rest = rest;
    let mut status: Vec<u8> = Vec::new();
    loop
        invariant
            t == s.skip(14),
            s.len() >= 14,
            2 + 2 * status@.len() <= t.len(),
            rest@ == t.skip(2 + 2 * (status@.len() as int)),
            pair_at(t, 0) == Some(offset),
            forall|j: int| 1 <= j <= status@.len() ==> pair_at(t, j) == Some(status@[j - 1]),
        ensures
            rest@.len() < 2 || pair_at(t, 1 + (status@.len() as int)) is None,
        decreases rest@.len(),
    {
        match hex_byte(rest) {
            Some((after, value)) => {
                assert(after@ =~= t.skip(2 + 2 * (status@.len() as int + 1)));
                assert(pair_at(t, 1 + (status@.len() as int)) == Some(value));
                status.push(value);
                rest = after;
            },
            None => {
                break ;
            },
        }
    }
    if rest.len() != 0 {
        proof {
            if t.len() % 2 == 0 {
                assert(rest@.len() >= 2);
                assert(1 + status@.len() < t.len() / 2);
            }
        }
        return None;
    }
    proof {
        assert(t.len() == 2 + 2 * status@.len());
        assert forall|k: int| 0 <= k < t.len() / 2 implies (#[trigger] pair_at(t, k)) is Some by {}
        assert(is_hex_run(t));
        let f = hex_values(t);
        assert(f[0] == offset);
        assert(f.skip(1) =~= status@);
        if status@.len() > 0 {
            assert(f.subrange(1, f.len() - 1) =~= status@.drop_last());
        }
    }
    status_from_parts((offset, status))
}

/// Reads one line, without its line end, as a message. Every line gives a
/// message: one that is neither a command nor a status report comes back
/// whole, as `Unrecognised`.
pub fn decode(bytes: Bytes) -> (m: Message)
    ensures
        m@ == decode_spec(bytes_contents(bytes)),
        m is Unrecognised ==> m == Message::Unrecognised(bytes),
{
    let input = bytes_as_slice(&bytes);
    let found = match command_pattern(input) {
        Some(m) => Some(m),
        None => status_pattern(input),
    };
    match found {
        Some(m) => m,
        None => Message::Unrecognised(bytes),
    }
}


/// A backslash and `05380002`: how a level command sent to the device starts.
pub const SETVAR_HEAD: [u8; 9] = [0x5c, 0x30, 0x35, 0x33, 0x38, 0x30, 0x30, 0x30, 0x32];

/// `@A3`: how a parameter command sent to the device starts.
pub const SETPARAM_HEAD: [u8; 3] = [0x40, 0x41, 0x33];

/// `~`: the reset command.
pub const RESET_BYTE: u8 = 0x7e;

/// The carriage return that ends a command sent to the device.
pub const CR: u8 = 0x0d;

/// The upper-case ASCII hex digit for a value below sixteen.
pub open spec fn upper_digit(n: int) -> u8 {
    if n < 10 {
        (0x30 + n) as u8
    } else {
        (0x41 + n - 10) as u8
    }
}

/// The lower-case ASCII hex digit for a value below sixteen.
pub open spec fn lower_digit(n: int) -> u8 {
    if n < 10 {
        (0x30 + n) as u8
    } else {
        (0x61 + n - 10) as u8
    }
}

/// A byte as two upper-case hex digits.
pub open spec fn hex_upper(b: u8) -> Seq<u8> {
    seq![upper_digit(b as int / 16), upper_digit(b as int % 16)]
}

/// A byte as two lower-case hex digits.
pub open spec fn hex_lower(b: u8) -> Seq<u8> {
    seq![lower_digit(b as int / 16), lower_digit(b as int % 16)]
}

/// The bytes that go to the device for a message. Only level commands,
/// parameter commands and the reset have a wire form; the ramp of a level
/// command is not part of it.
pub open spec fn encode_spec(m: MessageView) -> Seq<u8> {
    match m {
        MessageView::SetVar(group, level, _) => SETVAR_HEAD@ + hex_upper(group.0) + hex_upper(
            level.0,
        ) + seq![CR],
        MessageView::SetParam(param, setting) => SETPARAM_HEAD@ + hex_lower(param.0)
            + seq![0x30u8, 0x30u8] + hex_lower(setting.0) + seq![CR],
        MessageView::Reset => seq![RESET_BYTE],
        _ => Seq::empty(),
    }
}

/// What is sent first on every new connection: a reset, then the third and the
/// first options parameter.
pub open spec fn preamble_spec() -> Seq<u8> {
    encode_spec(MessageView::Reset) + encode_spec(
        MessageView::SetParam(Param(OPTIONS3), Setting(LOCAL_SAL | EX_STAT)),
    ) + encode_spec(
        MessageView::SetParam(Param(OPTIONS1), Setting(SMART | ID_MON | CONNECT | MONITOR)),
    )
}

fn push_all(out: &mut Vec<u8>, lit: &[u8])
    ensures
        final(out)@ == old(out)@ + lit@,
{
    let mut i: usize = 0;
    while i < lit.len()
        invariant
            i <= lit@.len(),
            out@ == old(out)@ + lit@.take(i as int),
        decreases lit@.len() - i,
    {
        out.push(lit[i]);
        assert(lit@.take(i + 1) =~= lit@.take(i as int).push(lit@[i as int]));
        i += 1;
    }
    assert(lit@.take(lit@.len() as int) =~= lit@);
}

fn push_hex(out: &mut Vec<u8>, b: u8, upper: bool)
    ensures
        final(out)@ == old(out)@ + if upper {
            hex_upper(b)
        } else {
            hex_lower(b)
        },
{
    let letter: u8 = if upper {
        0x41
    } else {
        0x61
    };
    let hi: u8 = b / 16;
    let lo: u8 = b % 16;
    out.push(if hi < 10 {
        0x30 + hi
    } else {
        letter + (hi - 10)
    });
    out.push(if lo < 10 {
        0x30 + lo
    } else {
        letter + (lo - 10)
    });
    assert(out@ =~= old(out)@ + if upper {
        hex_upper(b)
    } else {
        hex_lower(b)
    });
}

fn encode_into(out: &mut Vec<u8>, mesg: &Message)
    ensures
        final(out)@ == old(out)@ + encode_spec(mesg@),
{
    match mesg {
        Message::SetVar(group, level, _) => {
            push_all(out, SETVAR_HEAD.as_slice());
            push_hex(out, group.0, true);
            push_hex(out, level.0, true);
            out.push(CR);
            assert(out@ =~= old(out)@ + encode_spec(mesg@));
        },
        Message::SetParam(param, setting) => {
            push_all(out, SETPARAM_HEAD.as_slice());
            push_hex(out, param.0, false);
            out.push(0x30);
            out.push(0x30);
            push_hex(out, setting.0, false);
            out.push(CR);
            assert(out@ =~= old(out)@ + encode_spec(mesg@));
        },
        Message::Reset => {
            out.push(RESET_BYTE);
            assert(out@ =~= old(out)@ + encode_spec(mesg@));
        },
        _ => {
            assert(out@ =~= old(out)@ + encode_spec(mesg@));
        },
    }
}

/// The bytes to send to the device for a message; none for a message that
/// has no wire form.
pub fn encode(mesg: Message) -> (wire: Bytes)
    ensures
        bytes_contents(wire) == encode_spec(mesg@),
{
    let mut out: Vec<u8> = Vec::new();
    encode_into(&mut out, &mesg);
    assert(out@ =~= encode_spec(mesg@));
    bytes_from_vec(out)
}

/// The bytes to send first on a new connection.
pub fn preamble() -> (wire: Bytes)
    ensures
        bytes_contents(wire) == preamble_spec(),
{
    let mut out: Vec<u8> = Vec::new();
    encode_into(&mut out, &Message::Reset);
    encode_into(&mut out, &Message::SetParam(Param(OPTIONS3), Setting(LOCAL_SAL) | Setting(EX_STAT)));
    encode_into(
        &mut out,
        &Message::SetParam(
            Param(OPTIONS1),
            Setting(SMART) | Setting(ID_MON) | Setting(CONNECT) | Setting(MONITOR),
        ),
    );
    assert(out@ =~= preamble_spec());
    bytes_from_vec(out)
}

/// The preamble, byte for byte: `~`, then `@A342000a` and `@A3300071`, each
/// with a carriage return after it.
pub proof fn lemma_preamble_bytes()
    ensures
        preamble_spec() == seq![
            0x7eu8, 0x40, 0x41, 0x33, 0x34, 0x32, 0x30, 0x30, 0x30, 0x61, 0x0d, 0x40, 0x41, 0x33,
            0x33, 0x30, 0x30, 0x30, 0x37, 0x31, 0x0d,
        ],
{
    assert(LOCAL_SAL | EX_STAT == 0x0a) by (bit_vector);
    assert(SMART | ID_MON | CONNECT | MONITOR == 0x71) by (bit_vector);
    assert(hex_lower(0x42) =~= seq![0x34u8, 0x32]);
    assert(hex_lower(0x0a) =~= seq![0x30u8, 0x61]);
    assert(hex_lower(0x30) =~= seq![0x33u8, 0x30]);
    assert(hex_lower(0x71) =~= seq![0x37u8, 0x31]);
    assert(preamble_spec() =~= seq![
        0x7eu8, 0x40, 0x41, 0x33, 0x34, 0x32, 0x30, 0x30, 0x30, 0x61, 0x0d, 0x40, 0x41, 0x33,
        0x33, 0x30, 0x30, 0x30, 0x37, 0x31, 0x0d,
    ]);
}

/// Both spellings of a byte read back as that byte.
pub proof fn lemma_hex_round_trip(b: u8)
    ensures
        hex_pair_value(hex_upper(b)[0], hex_upper(b)[1]) == Some(b),
        hex_pair_value(hex_lower(b)[0], hex_lower(b)[1]) == Some(b),
{
}


/// Bytes as upper-case hex digits, two for each.
pub open spec fn hex_upper_all(bytes: Seq<u8>) -> Seq<u8> {
    Seq::new(
        2 * bytes.len(),
        |i: int|
            if i % 2 == 0 {
                upper_digit(bytes[i / 2] as int / 16)
            } else {
                upper_digit(bytes[i / 2] as int % 16)
            },
    )
}

/// A command line as the device writes it: `05`, two address characters,
/// `3800`, and the fields in hex, with or without a checksum after them.
pub open spec fn command_line(
    address: Seq<u8>,
    rate: u8,
    group: u8,
    level: u8,
    check: Option<u8>,
) -> Seq<u8> {
    COMMAND_TAG@ + address + LIGHTING_TAG@ + hex_upper_all(
        match check {
            Some(c) => seq![rate, group, level, c],
            None => seq![rate, group, level],
        },
    )
}

/// A status line as the device writes it: `86`, four characters, `00`, two
/// characters, `4038`, and in hex the group offset, the payload and a
/// checksum.
pub open spec fn status_line(
    source: Seq<u8>,
    route: Seq<u8>,
    offset: u8,
    payload: Seq<u8>,
    check: u8,
) -> Seq<u8> {
    STATUS_TAG@ + source + STATUS_ZERO_TAG@ + route + STATUS_REPORT_TAG@ + hex_upper_all(
        seq![offset] + payload + seq![check],
    )
}

/// A run of upper-case hex digits spells the bytes it was written from.
pub proof fn lemma_hex_upper_all(bytes: Seq<u8>)
    ensures
        is_hex_run(hex_upper_all(bytes)),
        hex_values(hex_upper_all(bytes)) == bytes,
{
    let t = hex_upper_all(bytes);
    assert forall|k: int| 0 <= k < t.len() / 2 implies #[trigger] pair_at(t, k) == Some(
        bytes[k],
    ) by {
        lemma_hex_round_trip(bytes[k]);
        assert((2 * k) % 2 == 0 && (2 * k) / 2 == k);
        assert((2 * k + 1) % 2 == 1 && (2 * k + 1) / 2 == k);
    }
    assert(hex_values(t) =~= bytes);
}

/// Every command line that the device can write is read as the message that
/// its fields stand for; where they stand for none, the line comes back
/// whole.
pub proof fn lemma_decode_command(
    address: Seq<u8>,
    rate: u8,
    group: u8,
    level: u8,
    check: Option<u8>,
)
    requires
        address.len() == 2,
    ensures
        command_form(command_line(address, rate, group, level, check)) == command_of(
            rate,
            group,
            level,
            check,
        ),
        decode_spec(command_line(address, rate, group, level, check)) == match command_of(
            rate,
            group,
            level,
            check,
        ) {
            Some(m) => m@,
            None => MessageView::Unrecognised(command_line(address, rate, group, level, check)),
        },
{
    let fields = match check {
        Some(c) => seq![rate, group, level, c],
        None => seq![rate, group, level],
    };
    let s = command_line(address, rate, group, level, check);
    let head = COMMAND_TAG@ + address + LIGHTING_TAG@;
    assert(head.len() == 8);
    assert(s == head + hex_upper_all(fields));
    lemma_hex_upper_all(fields);
    assert(s.len() == 8 + 2 * fields.len());
    assert(has_tag(s, 0, COMMAND_TAG@)) by {
        assert(s.skip(0).take(2) =~= COMMAND_TAG@);
    }
    assert(has_tag(s, 4, LIGHTING_TAG@)) by {
        assert(s.skip(4).take(4) =~= LIGHTING_TAG@);
    }
    assert(s.skip(8) == hex_upper_all(fields)) by {
        assert(s.skip(8) =~= hex_upper_all(fields));
    }
    assert(!has_tag(s, 0, STATUS_TAG@)) by {
        assert(s.skip(0).take(2)[0] == 0x30);
        assert(STATUS_TAG@[0] == 0x38);
    }
    assert(hex_values(s.skip(8)) == fields);
    assert(status_form(s) is None);
    assert(command_form(s) == command_of(rate, group, level, check));
}

/// Every status line that the device can write is read as the status of the
/// group it names, with the payload it carries, whatever its checksum.
pub proof fn lemma_decode_status(
    source: Seq<u8>,
    route: Seq<u8>,
    offset: u8,
    payload: Seq<u8>,
    check: u8,
)
    requires
        source.len() == 4,
        route.len() == 2,
    ensures
        decode_spec(status_line(source, route, offset, payload, check)) == MessageView::Status(
            Group(offset),
            payload,
        ),
{
    let fields = seq![offset] + payload + seq![check];
    let s = status_line(source, route, offset, payload, check);
    lemma_hex_upper_all(fields);
    assert(s.skip(0).take(2) =~= STATUS_TAG@);
    assert(s.skip(6).take(2) =~= STATUS_ZERO_TAG@);
    assert(s.skip(10).take(4) =~= STATUS_REPORT_TAG@);
    assert(s.skip(14) =~= hex_upper_all(fields));
    assert(s.skip(0).take(2)[0] != COMMAND_TAG@[0]);
    assert(fields.subrange(1, fields.len() - 1) =~= payload);
}

/// A line that breaks a rule of length, of a tag or of a hex digit is not
/// recognised, and comes back whole.
pub proof fn lemma_decode_unrecognised(s: Seq<u8>)
    ensures
        !has_tag(s, 0, COMMAND_TAG@) && !has_tag(s, 0, STATUS_TAG@) ==> decode_spec(s)
            == MessageView::Unrecognised(s),
        s.len() % 2 == 1 || s.len() < 14 ==> decode_spec(s) == MessageView::Unrecognised(s),
        has_tag(s, 0, COMMAND_TAG@) && s.len() != 14 && s.len() != 16 ==> decode_spec(s)
            == MessageView::Unrecognised(s),
        has_tag(s, 0, COMMAND_TAG@) && !is_hex_run(s.skip(8)) ==> decode_spec(s)
            == MessageView::Unrecognised(s),
        has_tag(s, 0, STATUS_TAG@) && !is_hex_run(s.skip(14)) ==> decode_spec(s)
            == MessageView::Unrecognised(s),
        decode_spec(s) is Unrecognised ==> decode_spec(s) == MessageView::Unrecognised(s),
{
    if has_tag(s, 0, COMMAND_TAG@) {
        assert(s.skip(0).take(2)[0] != STATUS_TAG@[0]);
    }
}

} // verus!
