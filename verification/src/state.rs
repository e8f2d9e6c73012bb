//! Typed device state decoded from one status line of the wire protocol,
//! with the lenient field-level decoders: a malformed field leaves its own
//! default in place and never aborts the record.
use vstd::prelude::*;
use crate::num::{u16_or_zero, u64_or_zero, is_digit, parses_as_uint, uint_val};
use crate::num::{parse_u16_or_zero, parse_u64_or_zero, parse_u64};
use crate::text::{split_char, split_str, tokens_of, tokenize, views, str_eq};

verus! {

/// A `current/target` reading, as in `B:24/60`.
#[derive(Debug, Clone, Copy, PartialEq, Eq, Structural)]
pub struct Pair {
    pub current: u16,
    pub target: u16,
}

#[derive(Debug, Clone, Copy, PartialEq, Eq, Structural)]
pub struct PairParseError;

/// A `position/size/paused` reading, as in `D:50/100/0`.
#[derive(Debug, Clone, Copy, PartialEq, Eq, Structural)]
pub struct Triple {
    pub current_file_position: u64,
    pub max_file_position: u64,
    pub paused: bool,
}

#[derive(Debug, Clone, Copy, PartialEq, Eq, Structural)]
pub struct TripleParseError;

/// What decoding a pair token yields: two `/`-separated numerals give their
/// values (each falling back to zero on its own), anything else gives the
/// all-zero pair.
pub open spec fn pair_of(s: Seq<char>) -> Pair {
    let parts = split_char(s, '/');
    if parts.len() == 2 {
        Pair { current: u16_or_zero(parts[0]), target: u16_or_zero(parts[1]) }
    } else {
        Pair { current: 0, target: 0 }
    }
}

/// What decoding a triple token yields: three `/`-separated parts, the third
/// marking paused exactly when it is `1`; anything else gives the default.
pub open spec fn triple_of(s: Seq<char>) -> Triple {
    let parts = split_char(s, '/');
    if parts.len() == 3 {
        Triple {
            current_file_position: u64_or_zero(parts[0]),
            max_file_position: u64_or_zero(parts[1]),
            paused: parts[2] == seq!['1'],
        }
    } else {
        Triple { current_file_position: 0, max_file_position: 0, paused: false }
    }
}

/// A third part of the triple other than exactly `1` never reads as
/// paused, whatever the two positions hold.
pub proof fn lemma_triple_third_part_not_one(s: Seq<char>)
    requires
        split_char(s, '/').len() == 3,
        split_char(s, '/')[2] != seq!['1'],
    ensures
        !triple_of(s).paused,
{
}

impl Default for Pair {
    /// The all-zero pair.
    fn default() -> (r: Pair)
        ensures
            r == (Pair { current: 0, target: 0 }),
    {
        Pair { current: 0, target: 0 }
    }
}

impl Default for Triple {
    /// The all-zero, not-paused triple.
    fn default() -> (r: Triple)
        ensures
            r == (Triple { current_file_position: 0, max_file_position: 0, paused: false }),
    {
        Triple { current_file_position: 0, max_file_position: 0, paused: false }
    }
}

impl Pair {
    /// Decodes a `current/target` token; never fails, the error type only
    /// keeps the signature of a fallible parse.
    pub fn from_str(s: &str) -> (r: Result<Pair, PairParseError>)
        ensures
            r == Ok::<Pair, PairParseError>(pair_of(s@)),
    {
        let parts = split_str(s, '/');
        if parts.len() == 2 {
            proof {
                assert(views(parts@)[0] == parts@[0]@);
                assert(views(parts@)[1] == parts@[1]@);
            }
            Ok(
                Pair {
                    current: parse_u16_or_zero(parts[0].as_str()),
                    target: parse_u16_or_zero(parts[1].as_str()),
                },
            )
        } else {
            Ok(Pair { current: 0, target: 0 })
        }
    }
}

impl Triple {
    /// Decodes a `position/size/paused` token; never fails.
    pub fn from_str(s: &str) -> (r: Result<Triple, TripleParseError>)
        ensures
            r == Ok::<Triple, TripleParseError>(triple_of(s@)),
    {
        let parts = split_str(s, '/');
        if parts.len() == 3 {
            proof {
                assert(views(parts@)[0] == parts@[0]@);
                assert(views(parts@)[1] == parts@[1]@);
                assert(views(parts@)[2] == parts@[2]@);
            }
            let paused = str_eq(parts[2].as_str(), "1");
            proof {
                reveal_strlit("1");
                assert("1"@ =~= seq!['1']);
            }
            Ok(
                Triple {
                    current_file_position: parse_u64_or_zero(parts[0].as_str()),
                    max_file_position: parse_u64_or_zero(parts[1].as_str()),
                    paused,
                },
            )
        } else {
            Ok(Triple { current_file_position: 0, max_file_position: 0, paused: false })
        }
    }
}

/// A fixed-point decimal literal: an optional sign, then digits with at most
/// one point among them and at least one digit. The positional axes carry
/// such a literal; a value of any other shape is left at its default.
pub open spec fn decimal_body(s: Seq<char>) -> Seq<char> {
    if s.len() > 0 && (s[0] == '+' || s[0] == '-') {
        s.subrange(1, s.len() as int)
    } else {
        s
    }
}

pub open spec fn is_decimal(s: Seq<char>) -> bool {
    let b = decimal_body(s);
    &&& b.len() > 0
    &&& forall|i: int| 0 <= i < b.len() ==> is_digit(#[trigger] b[i]) || b[i] == '.'
    &&& count_points(b) <= 1
    &&& b.len() > count_points(b)
}

pub open spec fn count_points(s: Seq<char>) -> int
    decreases s.len(),
{
    if s.len() == 0 {
        0
    } else {
        count_points(s.drop_last()) + if s.last() == '.' {
            1int
        } else {
            0int
        }
    }
}

/// Whether `s` is a fixed-point decimal literal.
pub fn is_decimal_str(s: &str) -> (r: bool)
    ensures
        r == is_decimal(s@),
{
    let n = s.unicode_len();
    let start: usize = if n > 0 {
        let c0 = s.get_char(0);
        if c0 == '+' || c0 == '-' {
            1
        } else {
            0
        }
    } else {
        0
    };
    let ghost b = decimal_body(s@);
    proof {
        assert(b =~= s@.subrange(start as int, n as int));
    }
    if start >= n {
        return false;
    }
    let mut points: usize = 0;
    let mut digits: usize = 0;
    let mut i: usize = start;
    while i < n
        invariant
            start <= i <= n,
            n == s@.len(),
            b == decimal_body(s@),
            b == s@.subrange(start as int, n as int),
            b.len() == n - start,
            forall|j: int| 0 <= j < i - start ==> is_digit(#[trigger] b[j]) || b[j] == '.',
            points == count_points(b.subrange(0, i - start)),
            digits <= i - start,
            points + digits == i - start,
        decreases n - i,
    {
        let c = s.get_char(i);
        let cv = c as u32;
        proof {
            assert(b[i - start] == s@[i as int]);
            assert(b.subrange(0, i - start + 1).drop_last() =~= b.subrange(0, i - start));
        }
        if c == '.' {
            points += 1;
        } else if cv >= 48 && cv <= 57 {
            digits += 1;
        } else {
            proof {
                assert(cv as int == c as int);
                assert(c != '.');
                assert(!is_digit(c));
                assert(!(is_digit(b[i - start]) || b[i - start] == '.'));
                assert(!is_decimal(s@));
            }
            return false;
        }
        i += 1;
    }
    proof {
        assert(b.subrange(0, (n - start) as int) =~= b);
    }
    points <= 1 && digits > 0
}

/// The decoded device status. The positional axes `x`, `y`, `z` keep the
/// exact decimal text of the wire field; every field defaults to its zero
/// value and is overwritten only by a well-formed field of its own key.
#[derive(Debug, Clone)]
pub struct PrinterState {
    pub b: Pair,
    pub e1: Pair,
    pub e2: Pair,
    pub x: String,
    pub y: String,
    pub z: String,
    pub f: Pair,
    pub d: Triple,
    pub t: u32,
}

#[derive(Debug, Clone, Copy, PartialEq, Eq, Structural)]
pub struct PrinterStateParseError;

/// The mathematical model of a device status record.
pub ghost struct StateModel {
    pub b: Pair,
    pub e1: Pair,
    pub e2: Pair,
    pub x: Seq<char>,
    pub y: Seq<char>,
    pub z: Seq<char>,
    pub f: Pair,
    pub d: Triple,
    pub t: u32,
}

impl View for PrinterState {
    type V = StateModel;

    open spec fn view(&self) -> StateModel {
        StateModel {
            b: self.b,
            e1: self.e1,
            e2: self.e2,
            x: self.x@,
            y: self.y@,
            z: self.z@,
            f: self.f,
            d: self.d,
            t: self.t,
        }
    }
}

/// The all-default status: zero pairs and triple, `0` on each axis, zero
/// elapsed time.
pub open spec fn default_state() -> StateModel {
    StateModel {
        b: Pair { current: 0, target: 0 },
        e1: Pair { current: 0, target: 0 },
        e2: Pair { current: 0, target: 0 },
        x: seq!['0'],
        y: seq!['0'],
        z: seq!['0'],
        f: Pair { current: 0, target: 0 },
        d: Triple { current_file_position: 0, max_file_position: 0, paused: false },
        t: 0,
    }
}

/// One `KEY:value` token applied to the state: a token without exactly one
/// colon or with an empty value is skipped, an unrecognized key is skipped,
/// and each recognized key overwrites its own field only.
pub open spec fn apply_token(st: StateModel, tok: Seq<char>) -> StateModel {
    let parts = split_char(tok, ':');
    if parts.len() != 2 || parts[1].len() == 0 {
        st
    } else {
        let k = parts[0];
        let v = parts[1];
        if k == seq!['B'] {
            StateModel { b: pair_of(v), ..st }
        } else if k == seq!['E', '1'] {
            StateModel { e1: pair_of(v), ..st }
        } else if k == seq!['E', '2'] {
            StateModel { e2: pair_of(v), ..st }
        } else if k == seq!['X'] {
            if is_decimal(v) {
                StateModel { x: v, ..st }
            } else {
                st
            }
        } else if k == seq!['Y'] {
            if is_decimal(v) {
                StateModel { y: v, ..st }
            } else {
                st
            }
        } else if k == seq!['Z'] {
            if is_decimal(v) {
                StateModel { z: v, ..st }
            } else {
                st
            }
        } else if k == seq!['F'] {
            StateModel { f: pair_of(v), ..st }
        } else if k == seq!['D'] {
            StateModel { d: triple_of(v), ..st }
        } else if k == seq!['T'] {
            if parses_as_uint(v) && uint_val(v) <= u32::MAX {
                StateModel { t: uint_val(v) as u32, ..st }
            } else {
                st
            }
        } else {
            st
        }
    }
}

pub open spec fn state_after(toks: Seq<Seq<char>>) -> StateModel
    decreases toks.len(),
{
    if toks.len() == 0 {
        default_state()
    } else {
        apply_token(state_after(toks.drop_last()), toks.last())
    }
}

/// What one status line decodes to: its whitespace-separated tokens applied
/// left to right over the all-default state.
pub open spec fn state_of(s: Seq<char>) -> StateModel {
    state_after(tokens_of(s))
}

impl Default for PrinterState {
    /// The all-default status record.
    fn default() -> (r: PrinterState)
        ensures
            r@ == default_state(),
    {
        let x = {
            let mut s = String::new();
            crate::text::push_char(&mut s, '0');
            s
        };
        let y = {
            let mut s = String::new();
            crate::text::push_char(&mut s, '0');
            s
        };
        let z = {
            let mut s = String::new();
            crate::text::push_char(&mut s, '0');
            s
        };
        let r = PrinterState {
            b: Pair { current: 0, target: 0 },
            e1: Pair { current: 0, target: 0 },
            e2: Pair { current: 0, target: 0 },
            x,
            y,
            z,
            f: Pair { current: 0, target: 0 },
            d: Triple { current_file_position: 0, max_file_position: 0, paused: false },
            t: 0,
        };
        proof {
            assert(r@.x =~= seq!['0']);
            assert(r@.y =~= seq!['0']);
            assert(r@.z =~= seq!['0']);
        }
        r
    }
}

impl PrinterState {
    /// Decodes one status line; total, and never fails: malformed fields
    /// keep their defaults.
    pub fn from_str(s: &str) -> (r: Result<PrinterState, PrinterStateParseError>)
        ensures
            r is Ok,
            r->Ok_0@ == state_of(s@),
    {
        let toks = tokenize(s);
        let mut st: PrinterState = Default::default();
        let mut i: usize = 0;
        while i < toks.len()
            invariant
                0 <= i <= toks@.len(),
                views(toks@) == tokens_of(s@),
                st@ == state_after(views(toks@).subrange(0, i as int)),
            decreases toks@.len() - i,
        {
            let ghost pre = views(toks@).subrange(0, i as int);
            proof {
                assert(views(toks@).subrange(0, i + 1).drop_last() =~= pre);
                assert(views(toks@).subrange(0, i + 1).last() == toks@[i as int]@);
            }
            st = apply_token_exec(st, &toks[i]);
            i += 1;
        }
        proof {
            assert(views(toks@).subrange(0, toks@.len() as int) =~= views(toks@));
        }
        Ok(st)
    }
}

/// Applies one `KEY:value` token to the state.
fn apply_token_exec(st: PrinterState, tok: &String) -> (r: PrinterState)
    ensures
        r@ == apply_token(st@, tok@),
{
    let parts = split_str(tok.as_str(), ':');
    if parts.len() != 2 {
        return st;
    }
    proof {
        assert(views(parts@)[0] == parts@[0]@);
        assert(views(parts@)[1] == parts@[1]@);
    }
    if parts[1].unicode_len() == 0 {
        return st;
    }
    let k = &parts[0];
    let v = &parts[1];
    proof {
        reveal_strlit("B");
        reveal_strlit("E1");
        reveal_strlit("E2");
        reveal_strlit("X");
        reveal_strlit("Y");
        reveal_strlit("Z");
        reveal_strlit("F");
        reveal_strlit("D");
        reveal_strlit("T");
        assert("B"@ =~= seq!['B']);
        assert("E1"@ =~= seq!['E', '1']);
        assert("E2"@ =~= seq!['E', '2']);
        assert("X"@ =~= seq!['X']);
        assert("Y"@ =~= seq!['Y']);
        assert("Z"@ =~= seq!['Z']);
        assert("F"@ =~= seq!['F']);
        assert("D"@ =~= seq!['D']);
        assert("T"@ =~= seq!['T']);
    }
    if str_eq(k.as_str(), "B") {
        let p = decode_pair(v.as_str());
        PrinterState { b: p, ..st }
    } else if str_eq(k.as_str(), "E1") {
        let p = decode_pair(v.as_str());
        PrinterState { e1: p, ..st }
    } else if str_eq(k.as_str(), "E2") {
        let p = decode_pair(v.as_str());
        PrinterState { e2: p, ..st }
    } else if str_eq(k.as_str(), "X") {
        if is_decimal_str(v.as_str()) {
            PrinterState { x: v.clone(), ..st }
        } else {
            st
        }
    } else if str_eq(k.as_str(), "Y") {
        if is_decimal_str(v.as_str()) {
            PrinterState { y: v.clone(), ..st }
        } else {
            st
        }
    } else if str_eq(k.as_str(), "Z") {
        if is_decimal_str(v.as_str()) {
            PrinterState { z: v.clone(), ..st }
        } else {
            st
        }
    } else if str_eq(k.as_str(), "F") {
        let p = decode_pair(v.as_str());
        PrinterState { f: p, ..st }
    } else if str_eq(k.as_str(), "D") {
        let t = decode_triple(v.as_str());
        PrinterState { d: t, ..st }
    } else if str_eq(k.as_str(), "T") {
        match parse_u64(v.as_str()) {
            Some(n) => if n <= u32::MAX as u64 {
                PrinterState { t: n as u32, ..st }
            } else {
                st
            },
            None => st,
        }
    } else {
        st
    }
}

impl PartialEq for PrinterState {
    fn eq(&self, other: &PrinterState) -> (r: bool) {
        self.b == other.b && self.e1 == other.e1 && self.e2 == other.e2 && self.x == other.x
            && self.y == other.y && self.z == other.z && self.f == other.f && self.d == other.d
            && self.t == other.t
    }
}

impl vstd::std_specs::cmp::PartialEqSpecImpl for PrinterState {
    open spec fn obeys_eq_spec() -> bool {
        true
    }

    open spec fn eq_spec(&self, other: &PrinterState) -> bool {
        self.b == other.b && self.e1 == other.e1 && self.e2 == other.e2 && self.x@ == other.x@
            && self.y@ == other.y@ && self.z@ == other.z@ && self.f == other.f && self.d == other.d
            && self.t == other.t
    }
}

/// Decodes a pair token to its value.
pub fn decode_pair(s: &str) -> (p: Pair)
    ensures
        p == pair_of(s@),
{
    match Pair::from_str(s) {
        Ok(p) => p,
        Err(_) => Pair { current: 0, target: 0 },
    }
}

/// Decodes a triple token to its value.
pub fn decode_triple(s: &str) -> (t: Triple)
    ensures
        t == triple_of(s@),
{
    match Triple::from_str(s) {
        Ok(t) => t,
        Err(_) => Triple { current_file_position: 0, max_file_position: 0, paused: false },
    }
}

} // verus!
