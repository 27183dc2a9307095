//! The document syntax used for the persisted state file, the configuration
//! file and the supervised application's output stream.
//!
//! A value is `null`, `true`, `false`, a number, a string, an array or an
//! object. The parser works on bytes and reports three distinct outcomes:
//! a value (with the count of bytes consumed), "incomplete" (the input ended
//! before the value was closed, so more input may still complete it), or
//! "malformed" (no continuation of the input can complete it). The split
//! between the last two is what the supervision loop's error handling rests
//! on. Numbers are kept as their uninterpreted byte spelling, so a document
//! round-trips without loss. String escapes `\" \\ \/ \b \f \n \r \t` are
//! understood, and `\u` escapes of scalar code points become their UTF-8
//! bytes; `\u` escapes of surrogates are reported as malformed.

use vstd::prelude::*;

verus! {

broadcast use
    vstd::seq::axiom_seq_index_decreases,
    vstd::std_specs::vec::axiom_vec_index_decreases;

pub const B_QUOTE: u8 = 34;
pub const B_BACKSLASH: u8 = 92;
pub const B_LBRACK: u8 = 91;
pub const B_RBRACK: u8 = 93;
pub const B_LBRACE: u8 = 123;
pub const B_RBRACE: u8 = 125;
pub const B_COMMA: u8 = 44;
pub const B_COLON: u8 = 58;
pub const B_MINUS: u8 = 45;
pub const B_PLUS: u8 = 43;
pub const B_DOT: u8 = 46;

/// Mathematical model of one structured value: the ghost counterpart of
/// [`Json`], with sequences in place of vectors.
#[verifier::ext_equal]
pub enum JVal {
    Null,
    Bool(bool),
    Num(Seq<u8>),
    Str(Seq<u8>),
    Arr(Seq<JVal>),
    Obj(Seq<(Seq<u8>, JVal)>),
}

/// One structured value, as held at run time: the unit the supervised
/// application emits and the state file stores.
#[verifier::ext_equal]
#[derive(Debug, PartialEq, Eq)]
pub enum Json {
    Null,
    Bool(bool),
    Num(Vec<u8>),
    Str(Vec<u8>),
    Arr(Vec<Json>),
    Obj(Vec<(Vec<u8>, Json)>),
}

pub open spec fn model_list(l: Seq<Json>) -> Seq<JVal>
    decreases l,
{
    if l.len() == 0 {
        Seq::empty()
    } else {
        seq![l[0].model()] + model_list(l.drop_first())
    }
}

pub open spec fn model_members(l: Seq<(Vec<u8>, Json)>) -> Seq<(Seq<u8>, JVal)>
    decreases l,
{
    if l.len() == 0 {
        Seq::empty()
    } else {
        seq![(l[0].0@, l[0].1.model())] + model_members(l.drop_first())
    }
}

impl Json {
    /// The value a run-time tree stands for.
    pub open spec fn model(self) -> JVal
        decreases self,
    {
        match self {
            Json::Null => JVal::Null,
            Json::Bool(b) => JVal::Bool(b),
            Json::Num(l) => JVal::Num(l@),
            Json::Str(s) => JVal::Str(s@),
            Json::Arr(v) => JVal::Arr(model_list(v@)),
            Json::Obj(v) => JVal::Obj(model_members(v@)),
        }
    }
}

pub proof fn lemma_model_list(l: Seq<Json>)
    ensures
        model_list(l).len() == l.len(),
        forall|i: int| 0 <= i < l.len() ==> model_list(l)[i] == l[i].model(),
    decreases l,
{
    if l.len() > 0 {
        lemma_model_list(l.drop_first());
    }
}

pub proof fn lemma_model_members(l: Seq<(Vec<u8>, Json)>)
    ensures
        model_members(l).len() == l.len(),
        forall|i: int| 0 <= i < l.len() ==> model_members(l)[i] == (l[i].0@, l[i].1.model()),
    decreases l,
{
    if l.len() > 0 {
        lemma_model_members(l.drop_first());
    }
}

// ---------------------------------------------------------------------------
// Character classes and scans
// ---------------------------------------------------------------------------

pub open spec fn is_ws(b: u8) -> bool {
    b == 32 || b == 9 || b == 10 || b == 13
}

pub open spec fn is_digit(b: u8) -> bool {
    48 <= b <= 57
}

/// Any byte that may occur in the spelling of a number.
pub open spec fn is_num_byte(b: u8) -> bool {
    is_digit(b) || b == B_MINUS || b == B_PLUS || b == B_DOT || b == 101 || b == 69
}

/// Length of the leading run of whitespace.
pub open spec fn ws_len(s: Seq<u8>) -> int
    decreases s,
{
    if s.len() > 0 && is_ws(s[0]) {
        1 + ws_len(s.drop_first())
    } else {
        0
    }
}

pub proof fn lemma_ws_len(s: Seq<u8>)
    ensures
        0 <= ws_len(s) <= s.len(),
        forall|i: int| 0 <= i < ws_len(s) ==> is_ws(s[i]),
        ws_len(s) < s.len() ==> !is_ws(s[ws_len(s)]),
    decreases s,
{
    broadcast use vstd::seq_lib::group_seq_properties;

    if s.len() > 0 && is_ws(s[0]) {
        lemma_ws_len(s.drop_first());
    }
}

/// Length of the leading run of number bytes.
pub open spec fn num_run(s: Seq<u8>) -> int
    decreases s,
{
    if s.len() > 0 && is_num_byte(s[0]) {
        1 + num_run(s.drop_first())
    } else {
        0
    }
}

pub proof fn lemma_num_run(s: Seq<u8>)
    ensures
        0 <= num_run(s) <= s.len(),
        forall|i: int| 0 <= i < num_run(s) ==> is_num_byte(s[i]),
        num_run(s) < s.len() ==> !is_num_byte(s[num_run(s)]),
    decreases s,
{
    broadcast use vstd::seq_lib::group_seq_properties;

    if s.len() > 0 && is_num_byte(s[0]) {
        lemma_num_run(s.drop_first());
    }
}

/// Length of the leading run of decimal digits.
pub open spec fn digit_run(s: Seq<u8>) -> int
    decreases s,
{
    if s.len() > 0 && is_digit(s[0]) {
        1 + digit_run(s.drop_first())
    } else {
        0
    }
}

pub proof fn lemma_digit_run(s: Seq<u8>)
    ensures
        0 <= digit_run(s) <= s.len(),
        forall|i: int| 0 <= i < digit_run(s) ==> is_digit(s[i]),
        digit_run(s) < s.len() ==> !is_digit(s[digit_run(s)]),
    decreases s,
{
    broadcast use vstd::seq_lib::group_seq_properties;

    if s.len() > 0 && is_digit(s[0]) {
        lemma_digit_run(s.drop_first());
    }
}

// ---------------------------------------------------------------------------
// The number grammar
// ---------------------------------------------------------------------------

/// `s` is a complete spelling of a number: an optional minus sign, an
/// integer part without a superfluous leading zero, an optional fraction,
/// an optional exponent, and nothing else.
pub open spec fn is_number(s: Seq<u8>) -> bool {
    if s.len() > 0 && s[0] == B_MINUS {
        is_unsigned_number(s.drop_first())
    } else {
        is_unsigned_number(s)
    }
}

pub open spec fn is_unsigned_number(s: Seq<u8>) -> bool {
    let d = digit_run(s);
    &&& d >= 1
    &&& (d == 1 || s[0] != 48)
    &&& is_frac_exp(s.skip(d))
}

/// What may follow the integer part: an optional fraction, then an optional
/// exponent, then the end.
pub open spec fn is_frac_exp(s: Seq<u8>) -> bool {
    if s.len() == 0 {
        true
    } else if s[0] == B_DOT {
        let d = digit_run(s.drop_first());
        d >= 1 && is_exp_part(s.skip(1 + d))
    } else {
        is_exp_part(s)
    }
}

/// What may follow the fraction: an optional exponent, then the end.
pub open spec fn is_exp_part(s: Seq<u8>) -> bool {
    if s.len() == 0 {
        true
    } else if s[0] == 101 || s[0] == 69 {
        let t = if s.len() >= 2 && (s[1] == B_PLUS || s[1] == B_MINUS) {
            s.skip(2)
        } else {
            s.drop_first()
        };
        t.len() >= 1 && digit_run(t) == t.len()
    } else {
        false
    }
}

/// Every byte of a number's spelling lies in the number alphabet, and the
/// spelling is not empty. The parser depends on this to cut a number out of
/// the input by scanning that alphabet.
pub proof fn lemma_number_bytes(s: Seq<u8>)
    requires
        is_number(s),
    ensures
        s.len() >= 1,
        num_run(s) == s.len(),
{
    assert forall|i: int| 0 <= i < s.len() implies is_num_byte(s[i]) by {
        lemma_number_byte_at(s, i);
    }
    lemma_all_num_bytes(s);
}

proof fn lemma_all_num_bytes(s: Seq<u8>)
    requires
        forall|i: int| 0 <= i < s.len() ==> is_num_byte(s[i]),
    ensures
        num_run(s) == s.len(),
    decreases s,
{
    if s.len() > 0 {
        lemma_all_num_bytes(s.drop_first());
    }
}

proof fn lemma_number_byte_at(s: Seq<u8>, i: int)
    requires
        is_number(s),
        0 <= i < s.len(),
    ensures
        is_num_byte(s[i]),
{
    let u = if s[0] == B_MINUS { s.drop_first() } else { s };
    let j = if s[0] == B_MINUS { i - 1 } else { i };
    if j < 0 {
    } else {
        lemma_unsigned_number_byte_at(u, j);
    }
}

proof fn lemma_unsigned_number_byte_at(s: Seq<u8>, i: int)
    requires
        is_unsigned_number(s),
        0 <= i < s.len(),
    ensures
        is_num_byte(s[i]),
{
    let d = digit_run(s);
    lemma_digit_run(s);
    if i < d {
    } else {
        lemma_frac_exp_byte_at(s.skip(d), i - d);
    }
}

proof fn lemma_frac_exp_byte_at(s: Seq<u8>, i: int)
    requires
        is_frac_exp(s),
        0 <= i < s.len(),
    ensures
        is_num_byte(s[i]),
{
    broadcast use vstd::seq_lib::group_seq_properties;

    if s[0] == B_DOT {
        let d = digit_run(s.drop_first());
        lemma_digit_run(s.drop_first());
        if i == 0 {
        } else if i <= d {
        } else {
            lemma_exp_part_byte_at(s.skip(1 + d), i - 1 - d);
        }
    } else {
        lemma_exp_part_byte_at(s, i);
    }
}

proof fn lemma_exp_part_byte_at(s: Seq<u8>, i: int)
    requires
        is_exp_part(s),
        0 <= i < s.len(),
    ensures
        is_num_byte(s[i]),
{
    broadcast use vstd::seq_lib::group_seq_properties;

    let t = if s.len() >= 2 && (s[1] == B_PLUS || s[1] == B_MINUS) {
        s.skip(2)
    } else {
        s.drop_first()
    };
    lemma_digit_run(t);
}

// ---------------------------------------------------------------------------
// The grammar, as spec-level parsing functions
// ---------------------------------------------------------------------------

/// Outcome of reading one string body (after its opening quote): the decoded
/// content and the count of bytes read, the closing quote included.
#[verifier::ext_equal]
pub enum StrRes {
    Found(Seq<u8>, int),
    More,
    Bad,
}

/// Outcome of reading one value: the value and the count of bytes read,
/// leading whitespace included.
#[verifier::ext_equal]
pub enum ValRes {
    Found(JVal, int),
    More,
    Bad,
}

/// Outcome of reading the elements of an array, from after the opening
/// bracket (or a comma) to the closing bracket included.
#[verifier::ext_equal]
pub enum ListRes {
    Found(Seq<JVal>, int),
    More,
    Bad,
}

/// Outcome of reading one `"key" : value` pair: the key, the value, and
/// the count of bytes read.
#[verifier::ext_equal]
pub enum PairRes {
    Found(Seq<u8>, JVal, int),
    More,
    Bad,
}

/// Outcome of reading the members of an object, from after the opening
/// brace (or a comma) to the closing brace included.
#[verifier::ext_equal]
pub enum MembRes {
    Found(Seq<(Seq<u8>, JVal)>, int),
    More,
    Bad,
}

pub open spec fn lit_null() -> Seq<u8> {
    seq![110u8, 117u8, 108u8, 108u8]
}

pub open spec fn lit_true() -> Seq<u8> {
    seq![116u8, 114u8, 117u8, 101u8]
}

pub open spec fn lit_false() -> Seq<u8> {
    seq![102u8, 97u8, 108u8, 115u8, 101u8]
}

pub open spec fn starts_with(s: Seq<u8>, p: Seq<u8>) -> bool {
    s.len() >= p.len() && s.take(p.len() as int) == p
}

/// A fixed keyword at the head of the input, already past `w` bytes of
/// whitespace.
pub open spec fn sp_lit(t: Seq<u8>, w: int, lit: Seq<u8>, v: JVal) -> ValRes {
    if starts_with(t, lit) {
        ValRes::Found(v, w + lit.len())
    } else if starts_with(lit, t) {
        ValRes::More
    } else {
        ValRes::Bad
    }
}

/// The byte an escape introducer stands for, if the escape is understood.
pub open spec fn esc_of(b: u8) -> Option<u8> {
    if b == B_QUOTE {
        Some(B_QUOTE)
    } else if b == B_BACKSLASH {
        Some(B_BACKSLASH)
    } else if b == 47 {
        Some(47)
    } else if b == 98 {
        Some(8)
    } else if b == 102 {
        Some(12)
    } else if b == 110 {
        Some(10)
    } else if b == 114 {
        Some(13)
    } else if b == 116 {
        Some(9)
    } else {
        None
    }
}

pub open spec fn is_hex(b: u8) -> bool {
    is_digit(b) || (97 <= b <= 102) || (65 <= b <= 70)
}

pub open spec fn hexval(b: u8) -> int {
    if is_digit(b) {
        b - 48
    } else if 97 <= b <= 102 {
        b - 87
    } else {
        b - 55
    }
}

/// A code point a `\u` escape may stand for: anything but a surrogate.
pub open spec fn is_scalar_cp(cp: int) -> bool {
    !(0xD800 <= cp <= 0xDFFF)
}

/// The bytes a code point up to U+FFFF is written as in UTF-8.
pub open spec fn utf8_of(cp: int) -> Seq<u8> {
    if cp < 0x80 {
        seq![cp as u8]
    } else if cp < 0x800 {
        seq![(0xC0 + cp / 64) as u8, (0x80 + cp % 64) as u8]
    } else {
        seq![(0xE0 + cp / 4096) as u8, (0x80 + (cp / 64) % 64) as u8, (0x80 + cp % 64) as u8]
    }
}

/// The code point four hex digits spell.
pub open spec fn hex4val(s: Seq<u8>) -> int {
    hexval(s[0]) * 4096 + hexval(s[1]) * 256 + hexval(s[2]) * 16 + hexval(s[3])
}

/// Every byte of a (short) run is a hex digit, so a truncated `\u` escape
/// may still complete.
pub open spec fn hex_prefix_ok(s: Seq<u8>) -> bool {
    forall|i: int| 0 <= i < s.len() ==> is_hex(#[trigger] s[i])
}

/// One string body, read from after the opening quote.
pub open spec fn sp_str(s: Seq<u8>) -> StrRes
    decreases s.len(), 0int,
{
    if s.len() == 0 {
        StrRes::More
    } else if s[0] == B_QUOTE {
        StrRes::Found(Seq::empty(), 1)
    } else if s[0] == B_BACKSLASH {
        if s.len() == 1 {
            StrRes::More
        } else {
            match esc_of(s[1]) {
                Some(c) => match sp_str(s.skip(2)) {
                    StrRes::Found(t, n) => StrRes::Found(seq![c] + t, n + 2),
                    r => r,
                },
                None => {
                    if s[1] != 117 {
                        StrRes::Bad
                    } else if s.len() < 6 {
                        if hex_prefix_ok(s.skip(2)) {
                            StrRes::More
                        } else {
                            StrRes::Bad
                        }
                    } else if is_hex(s[2]) && is_hex(s[3]) && is_hex(s[4]) && is_hex(s[5])
                        && is_scalar_cp(hex4val(s.skip(2))) {
                        match sp_str(s.skip(6)) {
                            StrRes::Found(t, n) => StrRes::Found(
                                utf8_of(hex4val(s.skip(2))) + t,
                                n + 6,
                            ),
                            r => r,
                        }
                    } else {
                        StrRes::Bad
                    }
                },
            }
        }
    } else {
        match sp_str(s.drop_first()) {
            StrRes::Found(t, n) => StrRes::Found(seq![s[0]] + t, n + 1),
            r => r,
        }
    }
}

/// One value, read from the head of the input.
pub open spec fn sp_value(s: Seq<u8>) -> ValRes
    decreases s.len(), 1int,
    via sp_value_dec
{
    let w = ws_len(s);
    let t = s.skip(w);
    if t.len() == 0 {
        ValRes::More
    } else if t[0] == 110 {
        sp_lit(t, w, lit_null(), JVal::Null)
    } else if t[0] == 116 {
        sp_lit(t, w, lit_true(), JVal::Bool(true))
    } else if t[0] == 102 {
        sp_lit(t, w, lit_false(), JVal::Bool(false))
    } else if t[0] == B_QUOTE {
        match sp_str(t.drop_first()) {
            StrRes::Found(c, n) => ValRes::Found(JVal::Str(c), w + 1 + n),
            StrRes::More => ValRes::More,
            StrRes::Bad => ValRes::Bad,
        }
    } else if t[0] == B_MINUS || is_digit(t[0]) {
        let n = num_run(t);
        if n == t.len() {
            ValRes::More
        } else if is_number(t.take(n)) {
            ValRes::Found(JVal::Num(t.take(n)), w + n)
        } else {
            ValRes::Bad
        }
    } else if t[0] == B_LBRACK {
        let u = t.drop_first();
        let w2 = ws_len(u);
        let r = u.skip(w2);
        if r.len() == 0 {
            ValRes::More
        } else if r[0] == B_RBRACK {
            ValRes::Found(JVal::Arr(Seq::empty()), w + 1 + w2 + 1)
        } else {
            match sp_elems(u) {
                ListRes::Found(vs, m) => ValRes::Found(JVal::Arr(vs), w + 1 + m),
                ListRes::More => ValRes::More,
                ListRes::Bad => ValRes::Bad,
            }
        }
    } else if t[0] == B_LBRACE {
        let u = t.drop_first();
        let w2 = ws_len(u);
        let r = u.skip(w2);
        if r.len() == 0 {
            ValRes::More
        } else if r[0] == B_RBRACE {
            ValRes::Found(JVal::Obj(Seq::empty()), w + 1 + w2 + 1)
        } else {
            match sp_members(u) {
                MembRes::Found(ps, m) => ValRes::Found(JVal::Obj(ps), w + 1 + m),
                MembRes::More => ValRes::More,
                MembRes::Bad => ValRes::Bad,
            }
        }
    } else {
        ValRes::Bad
    }
}

#[via_fn]
proof fn sp_value_dec(s: Seq<u8>) {
    lemma_ws_len(s);
}

/// The elements of a non-empty array, read from after the opening bracket,
/// the closing bracket included in the count.
pub open spec fn sp_elems(s: Seq<u8>) -> ListRes
    decreases s.len(), 2int,
    via sp_elems_dec
{
    match sp_value(s) {
        ValRes::Found(v, n) => {
            if n < 1 || n > s.len() {
                ListRes::Bad
            } else {
                let u = s.skip(n);
                let w2 = ws_len(u);
                let r = u.skip(w2);
                if r.len() == 0 {
                    ListRes::More
                } else if r[0] == B_RBRACK {
                    ListRes::Found(seq![v], n + w2 + 1)
                } else if r[0] == B_COMMA {
                    match sp_elems(r.drop_first()) {
                        ListRes::Found(vs, m) => ListRes::Found(
                            seq![v] + vs,
                            n + w2 + 1 + m,
                        ),
                        x => x,
                    }
                } else {
                    ListRes::Bad
                }
            }
        },
        ValRes::More => ListRes::More,
        ValRes::Bad => ListRes::Bad,
    }
}

#[via_fn]
proof fn sp_elems_dec(s: Seq<u8>) {
    assert forall|x: Seq<u8>| 0 <= #[trigger] ws_len(x) && ws_len(x) <= x.len() by {
        lemma_ws_len(x);
    }
}

/// One `"key" : value` pair, read from the head of the input.
pub open spec fn sp_member(s: Seq<u8>) -> PairRes
    decreases s.len(), 2int,
    via sp_member_dec
{
    let w = ws_len(s);
    let t = s.skip(w);
    if t.len() == 0 {
        PairRes::More
    } else if t[0] != B_QUOTE {
        PairRes::Bad
    } else {
        match sp_str(t.drop_first()) {
            StrRes::Found(k, n) => {
                if n < 1 || n > t.len() - 1 {
                    PairRes::Bad
                } else {
                    let u = t.skip(1 + n);
                    let w2 = ws_len(u);
                    let r = u.skip(w2);
                    if r.len() == 0 {
                        PairRes::More
                    } else if r[0] != B_COLON {
                        PairRes::Bad
                    } else {
                        match sp_value(r.drop_first()) {
                            ValRes::Found(v, m) => PairRes::Found(
                                k,
                                v,
                                w + 1 + n + w2 + 1 + m,
                            ),
                            ValRes::More => PairRes::More,
                            ValRes::Bad => PairRes::Bad,
                        }
                    }
                }
            },
            StrRes::More => PairRes::More,
            StrRes::Bad => PairRes::Bad,
        }
    }
}

#[via_fn]
proof fn sp_member_dec(s: Seq<u8>) {
    assert forall|x: Seq<u8>| 0 <= #[trigger] ws_len(x) && ws_len(x) <= x.len() by {
        lemma_ws_len(x);
    }
}

/// The members of a non-empty object, read from after the opening brace,
/// the closing brace included in the count.
pub open spec fn sp_members(s: Seq<u8>) -> MembRes
    decreases s.len(), 3int,
    via sp_members_dec
{
    match sp_member(s) {
        PairRes::Found(k, v, n) => {
            if n < 1 || n > s.len() {
                MembRes::Bad
            } else {
                let x = s.skip(n);
                let w3 = ws_len(x);
                let y = x.skip(w3);
                if y.len() == 0 {
                    MembRes::More
                } else if y[0] == B_RBRACE {
                    MembRes::Found(seq![(k, v)], n + w3 + 1)
                } else if y[0] == B_COMMA {
                    match sp_members(y.drop_first()) {
                        MembRes::Found(ps, q) => MembRes::Found(
                            seq![(k, v)] + ps,
                            n + w3 + 1 + q,
                        ),
                        z => z,
                    }
                } else {
                    MembRes::Bad
                }
            }
        },
        PairRes::More => MembRes::More,
        PairRes::Bad => MembRes::Bad,
    }
}

#[via_fn]
proof fn sp_members_dec(s: Seq<u8>) {
    assert forall|x: Seq<u8>| 0 <= #[trigger] ws_len(x) && ws_len(x) <= x.len() by {
        lemma_ws_len(x);
    }
}

/// A whole input that holds exactly one value, with nothing but whitespace
/// after it.
pub open spec fn sp_doc(s: Seq<u8>) -> Option<JVal> {
    match sp_value(s) {
        ValRes::Found(v, n) => {
            if 0 <= n <= s.len() && ws_len(s.skip(n)) == s.len() - n {
                Some(v)
            } else {
                None
            }
        },
        _ => None,
    }
}

// ---------------------------------------------------------------------------
// Bounds of the consumed counts
// ---------------------------------------------------------------------------

pub proof fn lemma_sp_str_bounds(s: Seq<u8>)
    ensures
        sp_str(s) matches StrRes::Found(c, n) ==> 1 <= n <= s.len(),
    decreases s.len(),
{
    if s.len() == 0 {
    } else if s[0] == B_QUOTE {
    } else if s[0] == B_BACKSLASH {
        if s.len() > 1 && esc_of(s[1]) is Some {
            lemma_sp_str_bounds(s.skip(2));
        }
        if s.len() >= 6 {
            lemma_sp_str_bounds(s.skip(6));
        }
    } else {
        lemma_sp_str_bounds(s.drop_first());
    }
}

pub proof fn lemma_sp_value_bounds(s: Seq<u8>)
    ensures
        sp_value(s) matches ValRes::Found(v, n) ==> 1 <= n <= s.len(),
    decreases s.len(), 1int,
{
    lemma_ws_len(s);
    let w = ws_len(s);
    let t = s.skip(w);
    if t.len() == 0 {
    } else if t[0] == 110 || t[0] == 116 || t[0] == 102 {
    } else if t[0] == B_QUOTE {
        lemma_sp_str_bounds(t.drop_first());
    } else if t[0] == B_MINUS || is_digit(t[0]) {
        lemma_num_run(t);
    } else if t[0] == B_LBRACK {
        let u = t.drop_first();
        lemma_ws_len(u);
        lemma_sp_elems_bounds(u);
    } else if t[0] == B_LBRACE {
        let u = t.drop_first();
        lemma_ws_len(u);
        lemma_sp_members_bounds(u);
    }
}

pub proof fn lemma_sp_elems_bounds(s: Seq<u8>)
    ensures
        sp_elems(s) matches ListRes::Found(vs, m) ==> 1 <= m <= s.len(),
    decreases s.len(), 2int,
{
    lemma_sp_value_bounds(s);
    match sp_value(s) {
        ValRes::Found(v, n) => {
            if 1 <= n <= s.len() {
                let u = s.skip(n);
                lemma_ws_len(u);
                let w2 = ws_len(u);
                let r = u.skip(w2);
                if r.len() > 0 && r[0] == B_COMMA {
                    lemma_sp_elems_bounds(r.drop_first());
                }
            }
        },
        _ => {},
    }
}

pub proof fn lemma_sp_member_bounds(s: Seq<u8>)
    ensures
        sp_member(s) matches PairRes::Found(k, v, n) ==> 1 <= n <= s.len(),
    decreases s.len(), 2int,
{
    lemma_ws_len(s);
    let w = ws_len(s);
    let t = s.skip(w);
    if t.len() > 0 && t[0] == B_QUOTE {
        lemma_sp_str_bounds(t.drop_first());
        match sp_str(t.drop_first()) {
            StrRes::Found(k, n) => {
                if 1 <= n <= t.len() - 1 {
                    let u = t.skip(1 + n);
                    lemma_ws_len(u);
                    let w2 = ws_len(u);
                    let r = u.skip(w2);
                    if r.len() > 0 && r[0] == B_COLON {
                        lemma_sp_value_bounds(r.drop_first());
                    }
                }
            },
            _ => {},
        }
    }
}

pub proof fn lemma_sp_members_bounds(s: Seq<u8>)
    ensures
        sp_members(s) matches MembRes::Found(ps, q) ==> 1 <= q <= s.len(),
    decreases s.len(), 3int,
{
    lemma_sp_member_bounds(s);
    match sp_member(s) {
        PairRes::Found(k, v, n) => {
            if 1 <= n <= s.len() {
                let x = s.skip(n);
                lemma_ws_len(x);
                let w3 = ws_len(x);
                let y = x.skip(w3);
                if y.len() > 0 && y[0] == B_COMMA {
                    lemma_sp_members_bounds(y.drop_first());
                }
            }
        },
        _ => {},
    }
}

// ---------------------------------------------------------------------------
// Well-formed values and the encoder
// ---------------------------------------------------------------------------

/// A value the encoder can commit to bytes: every number in it carries a
/// complete spelling.
pub open spec fn wf_jval(j: JVal) -> bool
    decreases j,
{
    match j {
        JVal::Null => true,
        JVal::Bool(_) => true,
        JVal::Num(l) => is_number(l),
        JVal::Str(_) => true,
        JVal::Arr(vs) => wf_jlist(vs),
        JVal::Obj(ps) => wf_jmembers(ps),
    }
}

pub open spec fn wf_jlist(vs: Seq<JVal>) -> bool
    decreases vs,
{
    vs.len() == 0 || (wf_jval(vs[0]) && wf_jlist(vs.drop_first()))
}

pub open spec fn wf_jmembers(ps: Seq<(Seq<u8>, JVal)>) -> bool
    decreases ps,
{
    ps.len() == 0 || (wf_jval(ps[0].1) && wf_jmembers(ps.drop_first()))
}

/// How one content byte is written inside a string.
pub open spec fn esc1(b: u8) -> Seq<u8> {
    if b == B_QUOTE {
        seq![B_BACKSLASH, B_QUOTE]
    } else if b == B_BACKSLASH {
        seq![B_BACKSLASH, B_BACKSLASH]
    } else {
        seq![b]
    }
}

pub open spec fn esc_seq(c: Seq<u8>) -> Seq<u8>
    decreases c,
{
    if c.len() == 0 {
        Seq::empty()
    } else {
        esc1(c[0]) + esc_seq(c.drop_first())
    }
}

pub open spec fn enc_str(c: Seq<u8>) -> Seq<u8> {
    seq![B_QUOTE] + esc_seq(c) + seq![B_QUOTE]
}

/// The bytes a value is written as. No whitespace is emitted.
pub open spec fn enc(j: JVal) -> Seq<u8>
    decreases j,
{
    match j {
        JVal::Null => lit_null(),
        JVal::Bool(b) => if b {
            lit_true()
        } else {
            lit_false()
        },
        JVal::Num(l) => l,
        JVal::Str(c) => enc_str(c),
        JVal::Arr(vs) => seq![B_LBRACK] + enc_list(vs) + seq![B_RBRACK],
        JVal::Obj(ps) => seq![B_LBRACE] + enc_members(ps) + seq![B_RBRACE],
    }
}

pub open spec fn enc_list(vs: Seq<JVal>) -> Seq<u8>
    decreases vs,
{
    if vs.len() == 0 {
        Seq::empty()
    } else if vs.len() == 1 {
        enc(vs[0])
    } else {
        enc(vs[0]) + seq![B_COMMA] + enc_list(vs.drop_first())
    }
}

pub open spec fn enc_member(p: (Seq<u8>, JVal)) -> Seq<u8>
    decreases p,
{
    enc_str(p.0) + seq![B_COLON] + enc(p.1)
}

pub open spec fn enc_members(ps: Seq<(Seq<u8>, JVal)>) -> Seq<u8>
    decreases ps,
{
    if ps.len() == 0 {
        Seq::empty()
    } else if ps.len() == 1 {
        enc_member(ps[0])
    } else {
        enc_member(ps[0]) + seq![B_COMMA] + enc_members(ps.drop_first())
    }
}

// ---------------------------------------------------------------------------
// The encoder inverts the parser
// ---------------------------------------------------------------------------

proof fn lemma_num_run_is(s: Seq<u8>, k: int)
    requires
        0 <= k <= s.len(),
        forall|i: int| 0 <= i < k ==> is_num_byte(s[i]),
        k < s.len() ==> !is_num_byte(s[k]),
    ensures
        num_run(s) == k,
    decreases s,
{
    if k > 0 {
        lemma_num_run_is(s.drop_first(), k - 1);
    }
}

pub proof fn lemma_number_head(l: Seq<u8>)
    requires
        is_number(l),
    ensures
        l.len() >= 1,
        l[0] == B_MINUS || is_digit(l[0]),
{
    if l.len() == 0 {
        lemma_digit_run(l);
    } else if l[0] != B_MINUS {
        lemma_digit_run(l);
    }
}

/// First byte of any encoded value.
pub open spec fn is_value_start(b: u8) -> bool {
    b == 110 || b == 116 || b == 102 || b == B_QUOTE || b == B_MINUS || is_digit(b)
        || b == B_LBRACK || b == B_LBRACE
}

pub proof fn lemma_enc_head(j: JVal)
    requires
        wf_jval(j),
    ensures
        enc(j).len() >= 1,
        is_value_start(enc(j)[0]),
{
    match j {
        JVal::Num(l) => {
            lemma_number_head(l);
        },
        _ => {},
    }
}

/// Reading a string body back from its escaped form recovers the content.
proof fn lemma_sp_str_escape(c: Seq<u8>, tail: Seq<u8>)
    ensures
        sp_str(esc_seq(c) + seq![B_QUOTE] + tail) == StrRes::Found(c, esc_seq(c).len() as int + 1),
    decreases c,
{
    let s = esc_seq(c) + seq![B_QUOTE] + tail;
    if c.len() == 0 {
        assert(s =~= seq![B_QUOTE] + tail);
        assert(c =~= Seq::<u8>::empty());
    } else {
        lemma_sp_str_escape(c.drop_first(), tail);
        let rest = esc_seq(c.drop_first()) + seq![B_QUOTE] + tail;
        let n = esc_seq(c.drop_first()).len() as int + 1;
        if c[0] == B_QUOTE || c[0] == B_BACKSLASH {
            assert(esc_seq(c) =~= seq![B_BACKSLASH, c[0]] + esc_seq(c.drop_first()));
            assert(s =~= seq![B_BACKSLASH, c[0]] + rest);
            assert(s[0] == B_BACKSLASH);
            assert(s[1] == c[0]);
            assert(esc_of(c[0]) == Some(c[0]));
            assert(s.skip(2) =~= rest);
            assert(seq![c[0]] + c.drop_first() =~= c);
            assert(sp_str(s) == StrRes::Found(c, n + 2));
            assert(esc_seq(c).len() + 1 == n + 2);
        } else {
            assert(esc_seq(c) =~= seq![c[0]] + esc_seq(c.drop_first()));
            assert(s =~= seq![c[0]] + rest);
            assert(s[0] == c[0]);
            assert(s.drop_first() =~= rest);
            assert(seq![c[0]] + c.drop_first() =~= c);
            assert(sp_str(s) == StrRes::Found(c, n + 1));
            assert(esc_seq(c).len() + 1 == n + 1);
        }
    }
}

/// Parsing what the encoder wrote yields the value back and consumes exactly
/// the encoding, whatever follows it — provided that what follows a number
/// cannot extend its spelling.
#[verifier::rlimit(100)]
pub proof fn lemma_enc_value(j: JVal, tail: Seq<u8>)
    requires
        wf_jval(j),
        j matches JVal::Num(l) ==> tail.len() > 0 && !is_num_byte(tail[0]),
    ensures
        sp_value(enc(j) + tail) == ValRes::Found(j, enc(j).len() as int),
    decreases j,
{
    let s = enc(j) + tail;
    lemma_enc_head(j);
    assert(s[0] == enc(j)[0]);
    assert(!is_ws(s[0]));
    assert(ws_len(s) == 0);
    assert(s.skip(0) =~= s);
    let t = s;
    match j {
        JVal::Null => {
            assert(t.take(4) =~= lit_null());
            assert(starts_with(t, lit_null()));
        },
        JVal::Bool(b) => {
            if b {
                assert(t.take(4) =~= lit_true());
                assert(starts_with(t, lit_true()));
            } else {
                assert(t.take(5) =~= lit_false());
                assert(starts_with(t, lit_false()));
            }
        },
        JVal::Str(c) => {
            assert(s =~= seq![B_QUOTE] + (esc_seq(c) + seq![B_QUOTE] + tail));
            assert(t[0] == B_QUOTE);
            assert(t.drop_first() =~= esc_seq(c) + seq![B_QUOTE] + tail);
            lemma_sp_str_escape(c, tail);
            assert(sp_value(s) == ValRes::Found(JVal::Str(c), 0 + 1 + (esc_seq(c).len() as int + 1)));
            assert(enc(j).len() == esc_seq(c).len() + 2);
        },
        JVal::Num(l) => {
            lemma_number_head(l);
            lemma_number_bytes(l);
            lemma_num_run(l);
            assert forall|i: int| 0 <= i < l.len() implies is_num_byte(#[trigger] s[i]) by {
                assert(s[i] == l[i]);
            }
            assert(s[l.len() as int] == tail[0]);
            lemma_num_run_is(s, l.len() as int);
            assert(num_run(t) == l.len());
            assert(num_run(t) != t.len());
            assert(t.take(l.len() as int) =~= l);
        },
        JVal::Arr(vs) => {
            assert(t[0] == B_LBRACK);
            let u = t.drop_first();
            assert(u =~= enc_list(vs) + seq![B_RBRACK] + tail);
            if vs.len() == 0 {
                assert(enc_list(vs) == Seq::<u8>::empty());
                assert(u =~= seq![B_RBRACK] + tail);
                assert(u[0] == B_RBRACK);
                assert(ws_len(u) == 0);
                assert(u.skip(0) =~= u);
                assert(vs =~= Seq::<JVal>::empty());
                assert(sp_value(s) == ValRes::Found(JVal::Arr(vs), 2));
            } else {
                lemma_enc_head(vs[0]);
                assert(wf_jval(vs[0]));
                assert(enc_list(vs)[0] == enc(vs[0])[0]);
                assert(u[0] == enc(vs[0])[0]);
                assert(!is_ws(u[0]));
                assert(ws_len(u) == 0);
                assert(u.skip(0) =~= u);
                assert(u[0] != B_RBRACK);
                lemma_enc_elems(vs, tail);
                assert(sp_elems(u) == ListRes::Found(vs, enc_list(vs).len() as int + 1));
                assert(sp_value(s) == ValRes::Found(JVal::Arr(vs), 0 + 1 + (enc_list(vs).len() as int + 1)));
                assert(enc(j).len() == enc_list(vs).len() + 2);
            }
        },
        JVal::Obj(ps) => {
            assert(t[0] == B_LBRACE);
            let u = t.drop_first();
            assert(u =~= enc_members(ps) + seq![B_RBRACE] + tail);
            if ps.len() == 0 {
                assert(enc_members(ps) == Seq::<u8>::empty());
                assert(u =~= seq![B_RBRACE] + tail);
                assert(u[0] == B_RBRACE);
                assert(ws_len(u) == 0);
                assert(u.skip(0) =~= u);
                assert(ps =~= Seq::<(Seq<u8>, JVal)>::empty());
                assert(sp_value(s) == ValRes::Found(JVal::Obj(ps), 2));
            } else {
                assert(enc_member(ps[0])[0] == B_QUOTE);
                assert(enc_members(ps)[0] == B_QUOTE);
                assert(u[0] == B_QUOTE);
                assert(!is_ws(u[0]));
                assert(ws_len(u) == 0);
                assert(u.skip(0) =~= u);
                assert(u[0] != B_RBRACE);
                lemma_enc_members(ps, tail);
                assert(sp_members(u) == MembRes::Found(ps, enc_members(ps).len() as int + 1));
                assert(sp_value(s) == ValRes::Found(JVal::Obj(ps), 0 + 1 + (enc_members(ps).len() as int + 1)));
                assert(enc(j).len() == enc_members(ps).len() + 2);
            }
        },
    }
}

#[verifier::rlimit(100)]
proof fn lemma_enc_elems(vs: Seq<JVal>, tail: Seq<u8>)
    requires
        wf_jlist(vs),
        vs.len() >= 1,
    ensures
        sp_elems(enc_list(vs) + seq![B_RBRACK] + tail) == ListRes::Found(
            vs,
            enc_list(vs).len() as int + 1,
        ),
    decreases vs,
{
    let s = enc_list(vs) + seq![B_RBRACK] + tail;
    let v0 = vs[0];
    lemma_enc_head(v0);
    let n0 = enc(v0).len() as int;
    if vs.len() == 1 {
        assert(s =~= enc(v0) + (seq![B_RBRACK] + tail));
        lemma_enc_value(v0, seq![B_RBRACK] + tail);
        assert(sp_value(s) == ValRes::Found(v0, n0));
        let u = s.skip(n0);
        assert(u =~= seq![B_RBRACK] + tail);
        assert(!is_ws(u[0]));
        assert(ws_len(u) == 0);
        assert(u.skip(0) =~= u);
        assert(u[0] == B_RBRACK);
        assert(seq![v0] =~= vs);
        assert(sp_elems(s) == ListRes::Found(vs, n0 + 0 + 1));
    } else {
        let rest = vs.drop_first();
        lemma_enc_elems(rest, tail);
        let rtail = seq![B_COMMA] + enc_list(rest) + seq![B_RBRACK] + tail;
        assert(s =~= enc(v0) + rtail);
        lemma_enc_value(v0, rtail);
        assert(sp_value(s) == ValRes::Found(v0, n0));
        let u = s.skip(n0);
        assert(u =~= rtail);
        assert(u[0] == B_COMMA);
        assert(!is_ws(u[0]));
        assert(ws_len(u) == 0);
        assert(u.skip(0) =~= u);
        assert(u[0] != B_RBRACK);
        assert(u.drop_first() =~= enc_list(rest) + seq![B_RBRACK] + tail);
        assert(sp_elems(u.drop_first()) == ListRes::Found(rest, enc_list(rest).len() as int + 1));
        assert(seq![v0] + rest =~= vs);
        assert(sp_elems(s) == ListRes::Found(vs, n0 + 0 + 1 + (enc_list(rest).len() as int + 1)));
        assert(enc_list(vs).len() == n0 + 1 + enc_list(rest).len());
    }
}

#[verifier::rlimit(100)]
proof fn lemma_enc_member(p: (Seq<u8>, JVal), after: Seq<u8>)
    requires
        wf_jval(p.1),
        after.len() > 0,
        !is_num_byte(after[0]),
    ensures
        sp_member(enc_member(p) + after) == PairRes::Found(
            p.0,
            p.1,
            enc_member(p).len() as int,
        ),
    decreases p, 0int,
{
    let s = enc_member(p) + after;
    let k = p.0;
    let v0 = p.1;
    lemma_enc_head(v0);
    let n0 = enc(v0).len() as int;
    let kn = esc_seq(k).len() as int + 1;
    assert(enc_str(k)[0] == B_QUOTE);
    assert(enc_member(p)[0] == B_QUOTE);
    assert(s[0] == B_QUOTE);
    assert(!is_ws(s[0]));
    assert(ws_len(s) == 0);
    assert(s.skip(0) =~= s);
    assert(s =~= seq![B_QUOTE] + (esc_seq(k) + seq![B_QUOTE] + (seq![B_COLON] + (enc(v0)
        + after))));
    assert(s.drop_first() =~= esc_seq(k) + seq![B_QUOTE] + (seq![B_COLON] + (enc(v0) + after)));
    lemma_sp_str_escape(k, seq![B_COLON] + (enc(v0) + after));
    assert(sp_str(s.drop_first()) == StrRes::Found(k, kn));
    assert(1 <= kn <= s.len() - 1);
    let u = s.skip(1 + kn);
    assert(u =~= seq![B_COLON] + (enc(v0) + after));
    assert(u[0] == B_COLON);
    assert(!is_ws(u[0]));
    assert(ws_len(u) == 0);
    assert(u.skip(0) =~= u);
    lemma_enc_value(v0, after);
    assert(u.drop_first() =~= enc(v0) + after);
    assert(sp_value(u.drop_first()) == ValRes::Found(v0, n0));
    assert(sp_member(s) == PairRes::Found(k, v0, 0 + 1 + kn + 0 + 1 + n0));
    assert(enc_member(p).len() == 1 + kn + 1 + n0);
}

proof fn lemma_enc_members(ps: Seq<(Seq<u8>, JVal)>, tail: Seq<u8>)
    requires
        wf_jmembers(ps),
        ps.len() >= 1,
    ensures
        sp_members(enc_members(ps) + seq![B_RBRACE] + tail) == MembRes::Found(
            ps,
            enc_members(ps).len() as int + 1,
        ),
    decreases ps, 2int,
{
    if ps.len() == 1 {
        lemma_enc_members_single(ps, tail);
    } else {
        lemma_enc_members_more(ps, tail);
    }
}

#[verifier::rlimit(100)]
proof fn lemma_enc_members_single(ps: Seq<(Seq<u8>, JVal)>, tail: Seq<u8>)
    requires
        wf_jmembers(ps),
        ps.len() == 1,
    ensures
        sp_members(enc_members(ps) + seq![B_RBRACE] + tail) == MembRes::Found(
            ps,
            enc_members(ps).len() as int + 1,
        ),
    decreases ps, 1int,
{
    let s = enc_members(ps) + seq![B_RBRACE] + tail;
    let p0 = ps[0];
    let n0 = enc_member(p0).len() as int;
    assert(s =~= enc_member(p0) + (seq![B_RBRACE] + tail));
    lemma_enc_member(p0, seq![B_RBRACE] + tail);
    assert(sp_member(s) == PairRes::Found(p0.0, p0.1, n0));
    assert(n0 >= 4);
    let x = s.skip(n0);
    assert(x =~= seq![B_RBRACE] + tail);
    assert(!is_ws(x[0]));
    assert(ws_len(x) == 0);
    assert(x.skip(0) =~= x);
    assert(x[0] == B_RBRACE);
    assert(seq![(p0.0, p0.1)] =~= ps);
    assert(sp_members(s) == MembRes::Found(ps, n0 + 0 + 1));
}

#[verifier::rlimit(100)]
proof fn lemma_enc_members_more(ps: Seq<(Seq<u8>, JVal)>, tail: Seq<u8>)
    requires
        wf_jmembers(ps),
        ps.len() >= 2,
    ensures
        sp_members(enc_members(ps) + seq![B_RBRACE] + tail) == MembRes::Found(
            ps,
            enc_members(ps).len() as int + 1,
        ),
    decreases ps, 1int,
{
    let s = enc_members(ps) + seq![B_RBRACE] + tail;
    let p0 = ps[0];
    let n0 = enc_member(p0).len() as int;
    let rest = ps.drop_first();
    let rtail = seq![B_COMMA] + enc_members(rest) + seq![B_RBRACE] + tail;
    assert(n0 >= 4) by {
        lemma_enc_head(p0.1);
    }
    assert(sp_member(s) == PairRes::Found(p0.0, p0.1, n0)) by {
        assert(s =~= enc_member(p0) + rtail);
        lemma_enc_member(p0, rtail);
    }
    let x = s.skip(n0);
    assert(x =~= rtail) by {
        assert(s =~= enc_member(p0) + rtail);
    }
    assert(x[0] == B_COMMA);
    assert(!is_ws(x[0]));
    assert(ws_len(x) == 0);
    assert(x.skip(0) =~= x);
    assert(x[0] != B_RBRACE);
    assert(sp_members(x.drop_first()) == MembRes::Found(
        rest,
        enc_members(rest).len() as int + 1,
    )) by {
        lemma_enc_members(rest, tail);
        assert(x.drop_first() =~= enc_members(rest) + seq![B_RBRACE] + tail);
    }
    assert(seq![(p0.0, p0.1)] + rest =~= ps);
    assert(n0 <= s.len());
    assert(sp_members(s) == MembRes::Found(
        ps,
        n0 + 0 + 1 + (enc_members(rest).len() as int + 1),
    ));
    assert(enc_members(ps).len() == n0 + 1 + enc_members(rest).len());
}

/// Round trip of a whole document: a well-formed value other than a bare
/// number is recovered exactly from its encoding.
pub proof fn lemma_enc_doc(j: JVal)
    requires
        wf_jval(j),
        !(j matches JVal::Num(l)),
    ensures
        sp_doc(enc(j)) == Some(j),
{
    let s = enc(j);
    assert(s + Seq::<u8>::empty() =~= s);
    lemma_enc_value(j, Seq::empty());
    assert(sp_value(s) == ValRes::Found(j, s.len() as int));
    assert(s.skip(s.len() as int) =~= Seq::<u8>::empty());
    assert(ws_len(s.skip(s.len() as int)) == 0);
}

// ---------------------------------------------------------------------------
// Everything the parser hands out is well formed
// ---------------------------------------------------------------------------

/// A parsed value is always well formed: in particular, every number in it
/// carries a complete spelling, so it can be written out again.
pub proof fn lemma_sp_value_wf(s: Seq<u8>)
    ensures
        sp_value(s) matches ValRes::Found(v, n) ==> wf_jval(v),
    decreases s.len(), 1int,
{
    lemma_ws_len(s);
    let w = ws_len(s);
    let t = s.skip(w);
    if t.len() == 0 {
    } else if t[0] == 110 || t[0] == 116 || t[0] == 102 || t[0] == B_QUOTE {
    } else if t[0] == B_MINUS || is_digit(t[0]) {
    } else if t[0] == B_LBRACK {
        let u = t.drop_first();
        lemma_ws_len(u);
        let w2 = ws_len(u);
        let r = u.skip(w2);
        if r.len() > 0 && r[0] == B_RBRACK {
            assert(wf_jlist(Seq::<JVal>::empty()));
        } else {
            lemma_sp_elems_wf(u);
        }
    } else if t[0] == B_LBRACE {
        let u = t.drop_first();
        lemma_ws_len(u);
        let w2 = ws_len(u);
        let r = u.skip(w2);
        if r.len() > 0 && r[0] == B_RBRACE {
            assert(wf_jmembers(Seq::<(Seq<u8>, JVal)>::empty()));
        } else {
            lemma_sp_members_wf(u);
        }
    }
}

proof fn lemma_sp_elems_wf(s: Seq<u8>)
    ensures
        sp_elems(s) matches ListRes::Found(vs, m) ==> wf_jlist(vs),
    decreases s.len(), 2int,
{
    lemma_sp_value_bounds(s);
    lemma_sp_value_wf(s);
    match sp_value(s) {
        ValRes::Found(v, n) => {
            if 1 <= n <= s.len() {
                let u = s.skip(n);
                lemma_ws_len(u);
                let w2 = ws_len(u);
                let r = u.skip(w2);
                if r.len() > 0 && r[0] == B_RBRACK {
                    assert(seq![v][0] == v);
                    assert(seq![v].drop_first() =~= Seq::<JVal>::empty());
                    assert(wf_jlist(Seq::<JVal>::empty()));
                    assert(wf_jlist(seq![v]));
                } else if r.len() > 0 && r[0] == B_COMMA {
                    lemma_sp_elems_wf(r.drop_first());
                    match sp_elems(r.drop_first()) {
                        ListRes::Found(vs, m) => {
                            assert((seq![v] + vs)[0] == v);
                            assert((seq![v] + vs).drop_first() =~= vs);
                        },
                        _ => {},
                    }
                }
            }
        },
        _ => {},
    }
}

proof fn lemma_sp_member_wf(s: Seq<u8>)
    ensures
        sp_member(s) matches PairRes::Found(k, v, n) ==> wf_jval(v),
    decreases s.len(), 2int,
{
    lemma_ws_len(s);
    let w = ws_len(s);
    let t = s.skip(w);
    if t.len() > 0 && t[0] == B_QUOTE {
        match sp_str(t.drop_first()) {
            StrRes::Found(k, n) => {
                if 1 <= n <= t.len() - 1 {
                    let u = t.skip(1 + n);
                    lemma_ws_len(u);
                    let w2 = ws_len(u);
                    let r = u.skip(w2);
                    if r.len() > 0 && r[0] == B_COLON {
                        lemma_sp_value_wf(r.drop_first());
                    }
                }
            },
            _ => {},
        }
    }
}

proof fn lemma_sp_members_wf(s: Seq<u8>)
    ensures
        sp_members(s) matches MembRes::Found(ps, q) ==> wf_jmembers(ps),
    decreases s.len(), 3int,
{
    lemma_sp_member_bounds(s);
    lemma_sp_member_wf(s);
    match sp_member(s) {
        PairRes::Found(k, v, n) => {
            if 1 <= n <= s.len() {
                let x = s.skip(n);
                lemma_ws_len(x);
                let w3 = ws_len(x);
                let y = x.skip(w3);
                if y.len() > 0 && y[0] == B_RBRACE {
                    assert(seq![(k, v)][0] == (k, v));
                    assert(seq![(k, v)].drop_first() =~= Seq::<(Seq<u8>, JVal)>::empty());
                    assert(wf_jmembers(Seq::<(Seq<u8>, JVal)>::empty()));
                    assert(wf_jmembers(seq![(k, v)]));
                } else if y.len() > 0 && y[0] == B_COMMA {
                    lemma_sp_members_wf(y.drop_first());
                    match sp_members(y.drop_first()) {
                        MembRes::Found(ps, q) => {
                            assert((seq![(k, v)] + ps)[0] == (k, v));
                            assert((seq![(k, v)] + ps).drop_first() =~= ps);
                        },
                        _ => {},
                    }
                }
            }
        },
        _ => {},
    }
}

/// A whole parsed document is well formed.
pub proof fn lemma_sp_doc_wf(s: Seq<u8>)
    ensures
        sp_doc(s) matches Some(v) ==> wf_jval(v),
{
    lemma_sp_value_wf(s);
}

// ---------------------------------------------------------------------------
// The parser, run-time side: scans
// ---------------------------------------------------------------------------

fn ws_byte(b: u8) -> (r: bool)
    ensures
        r == is_ws(b),
{
    b == 32 || b == 9 || b == 10 || b == 13
}

fn digit_byte(b: u8) -> (r: bool)
    ensures
        r == is_digit(b),
{
    48 <= b && b <= 57
}

fn num_byte(b: u8) -> (r: bool)
    ensures
        r == is_num_byte(b),
{
    (48 <= b && b <= 57) || b == B_MINUS || b == B_PLUS || b == B_DOT || b == 101 || b == 69
}

fn esc_byte(b: u8) -> (r: Option<u8>)
    ensures
        r == esc_of(b),
{
    if b == B_QUOTE {
        Some(B_QUOTE)
    } else if b == B_BACKSLASH {
        Some(B_BACKSLASH)
    } else if b == 47 {
        Some(47)
    } else if b == 98 {
        Some(8)
    } else if b == 102 {
        Some(12)
    } else if b == 110 {
        Some(10)
    } else if b == 114 {
        Some(13)
    } else if b == 116 {
        Some(9)
    } else {
        None
    }
}

/// First position at or after `i` that does not hold whitespace.
fn skip_ws_at(s: &[u8], i: usize) -> (r: usize)
    requires
        i <= s@.len(),
    ensures
        i <= r <= s@.len(),
        r - i == ws_len(s@.skip(i as int)),
{
    let mut j = i;
    loop
        invariant
            i <= j <= s@.len(),
            ws_len(s@.skip(i as int)) == (j - i) + ws_len(s@.skip(j as int)),
        decreases s@.len() - j,
    {
        if j == s.len() {
            proof {
                assert(s@.skip(j as int) =~= Seq::<u8>::empty());
            }
            return j;
        }
        let b = s[j];
        assert(b == s@.skip(j as int)[0]);
        if !ws_byte(b) {
            return j;
        }
        proof {
            assert(s@.skip(j as int).drop_first() =~= s@.skip(j as int + 1));
        }
        j = j + 1;
    }
}

/// First position at or after `i` that does not hold a number byte.
fn skip_num_at(s: &[u8], i: usize) -> (r: usize)
    requires
        i <= s@.len(),
    ensures
        i <= r <= s@.len(),
        r - i == num_run(s@.skip(i as int)),
{
    let mut j = i;
    loop
        invariant
            i <= j <= s@.len(),
            num_run(s@.skip(i as int)) == (j - i) + num_run(s@.skip(j as int)),
        decreases s@.len() - j,
    {
        if j == s.len() {
            proof {
                assert(s@.skip(j as int) =~= Seq::<u8>::empty());
            }
            return j;
        }
        let b = s[j];
        assert(b == s@.skip(j as int)[0]);
        if !num_byte(b) {
            return j;
        }
        proof {
            assert(s@.skip(j as int).drop_first() =~= s@.skip(j as int + 1));
        }
        j = j + 1;
    }
}

/// First position at or after `i`, but not past `end`, that does not hold a
/// digit.
fn skip_digits_to(s: &[u8], i: usize, end: usize) -> (r: usize)
    requires
        i <= end <= s@.len(),
    ensures
        i <= r <= end,
        r - i == digit_run(s@.subrange(i as int, end as int)),
{
    let mut j = i;
    loop
        invariant
            i <= j <= end <= s@.len(),
            digit_run(s@.subrange(i as int, end as int)) == (j - i) + digit_run(
                s@.subrange(j as int, end as int),
            ),
        decreases end - j,
    {
        if j == end {
            proof {
                assert(s@.subrange(j as int, end as int) =~= Seq::<u8>::empty());
            }
            return j;
        }
        let b = s[j];
        assert(b == s@.subrange(j as int, end as int)[0]);
        if !digit_byte(b) {
            return j;
        }
        proof {
            assert(s@.subrange(j as int, end as int).drop_first() =~= s@.subrange(
                j as int + 1,
                end as int,
            ));
        }
        j = j + 1;
    }
}

/// Bytes `i` to `j` of the input, as an owned vector.
pub(crate) fn copy_range(s: &[u8], i: usize, j: usize) -> (r: Vec<u8>)
    requires
        i <= j <= s@.len(),
    ensures
        r@ == s@.subrange(i as int, j as int),
{
    let mut out: Vec<u8> = Vec::new();
    let mut k = i;
    while k < j
        invariant
            i <= k <= j <= s@.len(),
            out@ =~= s@.subrange(i as int, k as int),
        decreases j - k,
    {
        out.push(s[k]);
        proof {
            assert(out@ =~= s@.subrange(i as int, k as int + 1));
        }
        k = k + 1;
    }
    proof {
        assert(out@ =~= s@.subrange(i as int, j as int));
    }
    out
}

// ---------------------------------------------------------------------------
// The parser, run-time side: number validation
// ---------------------------------------------------------------------------

/// Whether bytes `i` to `j` spell a complete number.
fn check_number(s: &[u8], i: usize, j: usize) -> (r: bool)
    requires
        i <= j <= s@.len(),
    ensures
        r == is_number(s@.subrange(i as int, j as int)),
{
    let ghost whole = s@.subrange(i as int, j as int);
    let p: usize = if i < j && s[i] == B_MINUS {
        i + 1
    } else {
        i
    };
    proof {
        assert(s@.subrange(p as int, j as int) =~= if i < j && whole[0] == B_MINUS {
            whole.drop_first()
        } else {
            whole
        });
        if i >= j {
            assert(whole.len() == 0);
        }
    }
    check_unsigned(s, p, j)
}

fn check_unsigned(s: &[u8], i: usize, j: usize) -> (r: bool)
    requires
        i <= j <= s@.len(),
    ensures
        r == is_unsigned_number(s@.subrange(i as int, j as int)),
{
    let ghost u = s@.subrange(i as int, j as int);
    let d = skip_digits_to(s, i, j);
    proof {
        lemma_digit_run(u);
    }
    if d == i {
        return false;
    }
    if d > i + 1 && s[i] == 48 {
        assert(u[0] == 48);
        return false;
    }
    assert(d - i == 1 || u[0] != 48);
    proof {
        assert(s@.subrange(d as int, j as int) =~= u.skip(d - i));
    }
    check_frac_exp(s, d, j)
}

fn check_frac_exp(s: &[u8], i: usize, j: usize) -> (r: bool)
    requires
        i <= j <= s@.len(),
    ensures
        r == is_frac_exp(s@.subrange(i as int, j as int)),
{
    let ghost u = s@.subrange(i as int, j as int);
    if i == j {
        return true;
    }
    assert(s@[i as int] == u[0]);
    if s[i] == B_DOT {
        proof {
            assert(s@.subrange(i as int + 1, j as int) =~= u.drop_first());
        }
        let d = skip_digits_to(s, i + 1, j);
        if d == i + 1 {
            return false;
        }
        proof {
            let dd = digit_run(u.drop_first());
            assert(dd == d - i - 1);
            assert(s@.subrange(d as int, j as int) =~= u.skip(1 + dd));
        }
        check_exp_part(s, d, j)
    } else {
        check_exp_part(s, i, j)
    }
}

fn check_exp_part(s: &[u8], i: usize, j: usize) -> (r: bool)
    requires
        i <= j <= s@.len(),
    ensures
        r == is_exp_part(s@.subrange(i as int, j as int)),
{
    let ghost u = s@.subrange(i as int, j as int);
    if i == j {
        return true;
    }
    assert(s@[i as int] == u[0]);
    if s[i] != 101 && s[i] != 69 {
        return false;
    }
    let p: usize = if i + 1 < j && (s[i + 1] == B_PLUS || s[i + 1] == B_MINUS) {
        i + 2
    } else {
        i + 1
    };
    proof {
        if i + 1 < j {
            assert(u[1] == s@[i as int + 1]);
        }
        assert(u.len() >= 2 ==> u[1] == s@[i as int + 1]);
        assert(s@.subrange(p as int, j as int) =~= if u.len() >= 2 && (u[1] == B_PLUS || u[1]
            == B_MINUS) {
            u.skip(2)
        } else {
            u.drop_first()
        });
    }
    if p == j {
        return false;
    }
    let d = skip_digits_to(s, p, j);
    d == j
}

// ---------------------------------------------------------------------------
// The parser, run-time side: values
// ---------------------------------------------------------------------------

/// Outcome of trying to read one value from the head of a buffer.
#[derive(Debug)]
pub enum Parsed {
    /// A complete value, and how many bytes of the buffer it took, leading
    /// whitespace included.
    Value(Json, usize),
    /// The buffer holds no complete value yet; more input may complete it.
    Incomplete,
    /// The buffer can never complete into a value.
    Malformed,
}

enum PStr {
    Val(Vec<u8>, usize),
    More,
    Bad,
}

enum PList {
    Val(Vec<Json>, usize),
    More,
    Bad,
}

enum PPair {
    Val(Vec<u8>, Json, usize),
    More,
    Bad,
}

enum PMembs {
    Val(Vec<(Vec<u8>, Json)>, usize),
    More,
    Bad,
}

enum LitMatch {
    Yes,
    Prefix,
    No,
}

spec fn str_cont(acc: Seq<u8>, used: int, r: StrRes) -> StrRes {
    match r {
        StrRes::Found(t, n) => StrRes::Found(acc + t, used + n),
        StrRes::More => StrRes::More,
        StrRes::Bad => StrRes::Bad,
    }
}

spec fn elems_cont(acc: Seq<JVal>, used: int, r: ListRes) -> ListRes {
    match r {
        ListRes::Found(vs, m) => ListRes::Found(acc + vs, used + m),
        ListRes::More => ListRes::More,
        ListRes::Bad => ListRes::Bad,
    }
}

spec fn membs_cont(acc: Seq<(Seq<u8>, JVal)>, used: int, r: MembRes) -> MembRes {
    match r {
        MembRes::Found(ps, q) => MembRes::Found(acc + ps, used + q),
        MembRes::More => MembRes::More,
        MembRes::Bad => MembRes::Bad,
    }
}

fn hex_byte(b: u8) -> (r: bool)
    ensures
        r == is_hex(b),
{
    (48 <= b && b <= 57) || (97 <= b && b <= 102) || (65 <= b && b <= 70)
}

fn hex_value(b: u8) -> (r: u8)
    requires
        is_hex(b),
    ensures
        r as int == hexval(b),
{
    if b <= 57 {
        b - 48
    } else if b >= 97 {
        b - 87
    } else {
        b - 55
    }
}

/// One string body, read from just after the opening quote.
fn parse_str_at(s: &[u8], i: usize) -> (r: PStr)
    requires
        i <= s@.len(),
    ensures
        r matches PStr::Val(c, j) ==> i <= j <= s@.len() && sp_str(s@.skip(i as int))
            == StrRes::Found(c@, j - i),
        r is More ==> sp_str(s@.skip(i as int)) is More,
        r is Bad ==> sp_str(s@.skip(i as int)) is Bad,
{
    let mut acc: Vec<u8> = Vec::new();
    let mut j = i;
    loop
        invariant
            i <= j <= s@.len(),
            str_cont(acc@, j - i, sp_str(s@.skip(j as int))) == sp_str(s@.skip(i as int)),
        decreases s@.len() - j,
    {
        let ghost cur = s@.skip(j as int);
        if j == s.len() {
            proof {
                assert(cur =~= Seq::<u8>::empty());
            }
            return PStr::More;
        }
        let b = s[j];
        assert(b == cur[0]);
        if b == B_QUOTE {
            proof {
                assert(acc@ + Seq::<u8>::empty() =~= acc@);
            }
            return PStr::Val(acc, j + 1);
        }
        if b == B_BACKSLASH {
            if j + 1 == s.len() {
                proof {
                    assert(cur.len() == 1);
                }
                return PStr::More;
            }
            let e = s[j + 1];
            assert(e == cur[1]);
            match esc_byte(e) {
                None => {
                    if e != 117 {
                        return PStr::Bad;
                    }
                    if s.len() - j < 6 {
                        // A truncated escape: it may still complete, but
                        // only if every digit already present is hex.
                        let rem = s.len() - j - 2;
                        if rem >= 1 && !hex_byte(s[j + 2]) {
                            proof {
                                assert(cur.skip(2)[0] == s@[j as int + 2]);
                            }
                            return PStr::Bad;
                        }
                        if rem >= 2 && !hex_byte(s[j + 3]) {
                            proof {
                                assert(cur.skip(2)[1] == s@[j as int + 3]);
                            }
                            return PStr::Bad;
                        }
                        if rem >= 3 && !hex_byte(s[j + 4]) {
                            proof {
                                assert(cur.skip(2)[2] == s@[j as int + 4]);
                            }
                            return PStr::Bad;
                        }
                        proof {
                            assert forall|x: int|
                                0 <= x < cur.skip(2).len() implies is_hex(
                                #[trigger] cur.skip(2)[x],
                            ) by {
                                assert(cur.skip(2)[x] == s@[j + 2 + x]);
                            }
                        }
                        return PStr::More;
                    }
                    let h0 = s[j + 2];
                    let h1 = s[j + 3];
                    let h2 = s[j + 4];
                    let h3 = s[j + 5];
                    proof {
                        assert(cur[2] == s@[j as int + 2]);
                        assert(cur[3] == s@[j as int + 3]);
                        assert(cur[4] == s@[j as int + 4]);
                        assert(cur[5] == s@[j as int + 5]);
                        assert(cur.skip(2)[0] == s@[j as int + 2]);
                        assert(cur.skip(2)[1] == s@[j as int + 3]);
                        assert(cur.skip(2)[2] == s@[j as int + 4]);
                        assert(cur.skip(2)[3] == s@[j as int + 5]);
                    }
                    if !hex_byte(h0) || !hex_byte(h1) || !hex_byte(h2) || !hex_byte(h3) {
                        return PStr::Bad;
                    }
                    let cp: u32 = hex_value(h0) as u32 * 4096 + hex_value(h1) as u32 * 256
                        + hex_value(h2) as u32 * 16 + hex_value(h3) as u32;
                    proof {
                        assert(hex4val(cur.skip(2)) == cp as int);
                    }
                    if 0xD800 <= cp && cp <= 0xDFFF {
                        return PStr::Bad;
                    }
                    let ghost old_acc = acc@;
                    if cp < 0x80 {
                        acc.push(cp as u8);
                        proof {
                            assert(acc@ =~= old_acc + utf8_of(cp as int));
                        }
                    } else if cp < 0x800 {
                        acc.push((0xC0 + cp / 64) as u8);
                        acc.push((0x80 + cp % 64) as u8);
                        proof {
                            assert(acc@ =~= old_acc + utf8_of(cp as int));
                        }
                    } else {
                        acc.push((0xE0 + cp / 4096) as u8);
                        acc.push((0x80 + (cp / 64) % 64) as u8);
                        acc.push((0x80 + cp % 64) as u8);
                        proof {
                            assert(acc@ =~= old_acc + utf8_of(cp as int));
                        }
                    }
                    proof {
                        assert(cur.skip(6) =~= s@.skip(j as int + 6));
                        match sp_str(s@.skip(j as int + 6)) {
                            StrRes::Found(t2, n2) => {
                                assert(old_acc + (utf8_of(cp as int) + t2) =~= (old_acc
                                    + utf8_of(cp as int)) + t2);
                            },
                            _ => {},
                        }
                    }
                    j = j + 6;
                },
                Some(c) => {
                    proof {
                        assert(cur.skip(2) =~= s@.skip(j as int + 2));
                        match sp_str(s@.skip(j as int + 2)) {
                            StrRes::Found(t, n) => {
                                assert(acc@ + (seq![c] + t) =~= (acc@ + seq![c]) + t);
                            },
                            _ => {},
                        }
                    }
                    acc.push(c);
                    j = j + 2;
                },
            }
        } else {
            proof {
                assert(cur.drop_first() =~= s@.skip(j as int + 1));
                match sp_str(s@.skip(j as int + 1)) {
                    StrRes::Found(t, n) => {
                        assert(acc@ + (seq![b] + t) =~= (acc@ + seq![b]) + t);
                    },
                    _ => {},
                }
            }
            acc.push(b);
            j = j + 1;
        }
    }
}

/// A keyword at position `i`: matched whole, matched as far as the
/// input goes, or contradicted.
fn match_lit4(s: &[u8], i: usize, b0: u8, b1: u8, b2: u8, b3: u8) -> (r: LitMatch)
    requires
        i <= s@.len(),
    ensures
        ({
            let t = s@.skip(i as int);
            let lit = seq![b0, b1, b2, b3];
            &&& r is Yes ==> starts_with(t, lit) && i + 4 <= s@.len()
            &&& r is Prefix ==> !starts_with(t, lit) && starts_with(lit, t)
            &&& r is No ==> !starts_with(t, lit) && !starts_with(lit, t)
        }),
{
    let ghost t = s@.skip(i as int);
    let ghost lit: Seq<u8> = seq![b0, b1, b2, b3];
    let n = s.len();
    if i + 0 == n {
        proof {
            assert(lit.take(t.len() as int) =~= t);
        }
        return LitMatch::Prefix;
    }
    if s[i + 0] != b0 {
        proof {
            assert(t[0] == s@[i as int + 0]);
            if starts_with(t, lit) {
                assert(t.take(4)[0] == t[0]);
            }
            if starts_with(lit, t) {
                assert(lit.take(t.len() as int)[0] == t[0]);
            }
        }
        return LitMatch::No;
    }
    if i + 1 == n {
        proof {
            assert(lit.take(t.len() as int) =~= t);
        }
        return LitMatch::Prefix;
    }
    if s[i + 1] != b1 {
        proof {
            assert(t[1] == s@[i as int + 1]);
            if starts_with(t, lit) {
                assert(t.take(4)[1] == t[1]);
            }
            if starts_with(lit, t) {
                assert(lit.take(t.len() as int)[1] == t[1]);
            }
        }
        return LitMatch::No;
    }
    if i + 2 == n {
        proof {
            assert(lit.take(t.len() as int) =~= t);
        }
        return LitMatch::Prefix;
    }
    if s[i + 2] != b2 {
        proof {
            assert(t[2] == s@[i as int + 2]);
            if starts_with(t, lit) {
                assert(t.take(4)[2] == t[2]);
            }
            if starts_with(lit, t) {
                assert(lit.take(t.len() as int)[2] == t[2]);
            }
        }
        return LitMatch::No;
    }
    if i + 3 == n {
        proof {
            assert(lit.take(t.len() as int) =~= t);
        }
        return LitMatch::Prefix;
    }
    if s[i + 3] != b3 {
        proof {
            assert(t[3] == s@[i as int + 3]);
            if starts_with(t, lit) {
                assert(t.take(4)[3] == t[3]);
            }
            if starts_with(lit, t) {
                assert(lit.take(t.len() as int)[3] == t[3]);
            }
        }
        return LitMatch::No;
    }
    proof {
        assert(t.take(4) =~= lit);
    }
    LitMatch::Yes
}

/// A five-byte keyword at position `i`.
fn match_lit5(s: &[u8], i: usize, b0: u8, b1: u8, b2: u8, b3: u8, b4: u8) -> (r: LitMatch)
    requires
        i <= s@.len(),
    ensures
        ({
            let t = s@.skip(i as int);
            let lit = seq![b0, b1, b2, b3, b4];
            &&& r is Yes ==> starts_with(t, lit) && i + 5 <= s@.len()
            &&& r is Prefix ==> !starts_with(t, lit) && starts_with(lit, t)
            &&& r is No ==> !starts_with(t, lit) && !starts_with(lit, t)
        }),
{
    let ghost t = s@.skip(i as int);
    let ghost lit: Seq<u8> = seq![b0, b1, b2, b3, b4];
    let n = s.len();
    if i + 0 == n {
        proof {
            assert(lit.take(t.len() as int) =~= t);
        }
        return LitMatch::Prefix;
    }
    if s[i + 0] != b0 {
        proof {
            assert(t[0] == s@[i as int + 0]);
            if starts_with(t, lit) {
                assert(t.take(5)[0] == t[0]);
            }
            if starts_with(lit, t) {
                assert(lit.take(t.len() as int)[0] == t[0]);
            }
        }
        return LitMatch::No;
    }
    if i + 1 == n {
        proof {
            assert(lit.take(t.len() as int) =~= t);
        }
        return LitMatch::Prefix;
    }
    if s[i + 1] != b1 {
        proof {
            assert(t[1] == s@[i as int + 1]);
            if starts_with(t, lit) {
                assert(t.take(5)[1] == t[1]);
            }
            if starts_with(lit, t) {
                assert(lit.take(t.len() as int)[1] == t[1]);
            }
        }
        return LitMatch::No;
    }
    if i + 2 == n {
        proof {
            assert(lit.take(t.len() as int) =~= t);
        }
        return LitMatch::Prefix;
    }
    if s[i + 2] != b2 {
        proof {
            assert(t[2] == s@[i as int + 2]);
            if starts_with(t, lit) {
                assert(t.take(5)[2] == t[2]);
            }
            if starts_with(lit, t) {
                assert(lit.take(t.len() as int)[2] == t[2]);
            }
        }
        return LitMatch::No;
    }
    if i + 3 == n {
        proof {
            assert(lit.take(t.len() as int) =~= t);
        }
        return LitMatch::Prefix;
    }
    if s[i + 3] != b3 {
        proof {
            assert(t[3] == s@[i as int + 3]);
            if starts_with(t, lit) {
                assert(t.take(5)[3] == t[3]);
            }
            if starts_with(lit, t) {
                assert(lit.take(t.len() as int)[3] == t[3]);
            }
        }
        return LitMatch::No;
    }
    if i + 4 == n {
        proof {
            assert(lit.take(t.len() as int) =~= t);
        }
        return LitMatch::Prefix;
    }
    if s[i + 4] != b4 {
        proof {
            assert(t[4] == s@[i as int + 4]);
            if starts_with(t, lit) {
                assert(t.take(5)[4] == t[4]);
            }
            if starts_with(lit, t) {
                assert(lit.take(t.len() as int)[4] == t[4]);
            }
        }
        return LitMatch::No;
    }
    proof {
        assert(t.take(5) =~= lit);
    }
    LitMatch::Yes
}

/// One value, read from position `i`.
#[verifier::rlimit(100)]
fn parse_at(s: &[u8], i: usize) -> (r: Parsed)
    requires
        i <= s@.len(),
    ensures
        r matches Parsed::Value(v, j) ==> i <= j <= s@.len() && sp_value(s@.skip(i as int))
            == ValRes::Found(v.model(), j - i),
        r is Incomplete ==> sp_value(s@.skip(i as int)) is More,
        r is Malformed ==> sp_value(s@.skip(i as int)) is Bad,
    decreases s@.len() - i, 1int,
{
    let ghost whole = s@.skip(i as int);
    let w = skip_ws_at(s, i);
    proof {
        assert(whole.skip((w - i) as int) =~= s@.skip(w as int));
    }
    let ghost t = s@.skip(w as int);
    if w == s.len() {
        proof {
            assert(t =~= Seq::<u8>::empty());
        }
        return Parsed::Incomplete;
    }
    let b = s[w];
    assert(b == t[0]);
    if b == 110 {
        match match_lit4(s, w, 110, 117, 108, 108) {
            LitMatch::Yes => Parsed::Value(Json::Null, w + 4),
            LitMatch::Prefix => Parsed::Incomplete,
            LitMatch::No => Parsed::Malformed,
        }
    } else if b == 116 {
        match match_lit4(s, w, 116, 114, 117, 101) {
            LitMatch::Yes => Parsed::Value(Json::Bool(true), w + 4),
            LitMatch::Prefix => Parsed::Incomplete,
            LitMatch::No => Parsed::Malformed,
        }
    } else if b == 102 {
        match match_lit5(s, w, 102, 97, 108, 115, 101) {
            LitMatch::Yes => Parsed::Value(Json::Bool(false), w + 5),
            LitMatch::Prefix => Parsed::Incomplete,
            LitMatch::No => Parsed::Malformed,
        }
    } else if b == B_QUOTE {
        proof {
            assert(t.drop_first() =~= s@.skip(w as int + 1));
        }
        match parse_str_at(s, w + 1) {
            PStr::Val(c, j) => Parsed::Value(Json::Str(c), j),
            PStr::More => Parsed::Incomplete,
            PStr::Bad => Parsed::Malformed,
        }
    } else if b == B_MINUS || (48 <= b && b <= 57) {
        let e = skip_num_at(s, w);
        if e == s.len() {
            Parsed::Incomplete
        } else {
            if check_number(s, w, e) {
                proof {
                    assert(t.take((e - w) as int) =~= s@.subrange(w as int, e as int));
                }
                let lex = copy_range(s, w, e);
                Parsed::Value(Json::Num(lex), e)
            } else {
                proof {
                    assert(t.take((e - w) as int) =~= s@.subrange(w as int, e as int));
                }
                Parsed::Malformed
            }
        }
    } else if b == B_LBRACK {
        let u0 = w + 1;
        proof {
            assert(t.drop_first() =~= s@.skip(u0 as int));
        }
        let w2 = skip_ws_at(s, u0);
        proof {
            assert(s@.skip(u0 as int).skip((w2 - u0) as int) =~= s@.skip(w2 as int));
        }
        if w2 == s.len() {
            proof {
                assert(s@.skip(w2 as int) =~= Seq::<u8>::empty());
            }
            return Parsed::Incomplete;
        }
        let b2 = s[w2];
        assert(b2 == s@.skip(w2 as int)[0]);
        if b2 == B_RBRACK {
            let v: Vec<Json> = Vec::new();
            proof {
                assert(model_list(v@) =~= Seq::<JVal>::empty());
            }
            return Parsed::Value(Json::Arr(v), w2 + 1);
        }
        match parse_elems_at(s, u0) {
            PList::Val(vec, j) => Parsed::Value(Json::Arr(vec), j),
            PList::More => Parsed::Incomplete,
            PList::Bad => Parsed::Malformed,
        }
    } else if b == B_LBRACE {
        let u0 = w + 1;
        proof {
            assert(t.drop_first() =~= s@.skip(u0 as int));
        }
        let w2 = skip_ws_at(s, u0);
        proof {
            assert(s@.skip(u0 as int).skip((w2 - u0) as int) =~= s@.skip(w2 as int));
        }
        if w2 == s.len() {
            proof {
                assert(s@.skip(w2 as int) =~= Seq::<u8>::empty());
            }
            return Parsed::Incomplete;
        }
        let b2 = s[w2];
        assert(b2 == s@.skip(w2 as int)[0]);
        if b2 == B_RBRACE {
            let v: Vec<(Vec<u8>, Json)> = Vec::new();
            proof {
                assert(model_members(v@) =~= Seq::<(Seq<u8>, JVal)>::empty());
            }
            return Parsed::Value(Json::Obj(v), w2 + 1);
        }
        match parse_members_at(s, u0) {
            PMembs::Val(vec, j) => Parsed::Value(Json::Obj(vec), j),
            PMembs::More => Parsed::Incomplete,
            PMembs::Bad => Parsed::Malformed,
        }
    } else {
        Parsed::Malformed
    }
}

/// The elements of a non-empty array, read from just after the opening
/// bracket.
#[verifier::rlimit(100)]
fn parse_elems_at(s: &[u8], i: usize) -> (r: PList)
    requires
        i <= s@.len(),
    ensures
        r matches PList::Val(vec, j) ==> i <= j <= s@.len() && sp_elems(s@.skip(i as int))
            == ListRes::Found(model_list(vec@), j - i),
        r is More ==> sp_elems(s@.skip(i as int)) is More,
        r is Bad ==> sp_elems(s@.skip(i as int)) is Bad,
    decreases s@.len() - i, 2int,
{
    let mut acc: Vec<Json> = Vec::new();
    let mut cur = i;
    proof {
        assert(model_list(acc@) =~= Seq::<JVal>::empty());
        assert(Seq::<JVal>::empty() + Seq::<JVal>::empty() =~= Seq::<JVal>::empty());
    }
    loop
        invariant
            i <= cur <= s@.len(),
            elems_cont(model_list(acc@), cur - i, sp_elems(s@.skip(cur as int))) == sp_elems(
                s@.skip(i as int),
            ),
        decreases s@.len() - cur,
    {
        proof {
            lemma_sp_value_bounds(s@.skip(cur as int));
        }
        match parse_at(s, cur) {
            Parsed::Incomplete => {
                return PList::More;
            },
            Parsed::Malformed => {
                return PList::Bad;
            },
            Parsed::Value(v, n) => {
                proof {
                    assert(s@.skip(cur as int).skip((n - cur) as int) =~= s@.skip(n as int));
                }
                let w2 = skip_ws_at(s, n);
                proof {
                    assert(s@.skip(n as int).skip((w2 - n) as int) =~= s@.skip(w2 as int));
                }
                if w2 == s.len() {
                    proof {
                        assert(s@.skip(w2 as int) =~= Seq::<u8>::empty());
                    }
                    return PList::More;
                }
                let b = s[w2];
                assert(b == s@.skip(w2 as int)[0]);
                if b == B_RBRACK {
                    proof {
                        let ghost old_acc = acc@;
                        lemma_model_list(old_acc.push(v));
                        lemma_model_list(old_acc);
                        assert(model_list(old_acc.push(v)) =~= model_list(old_acc) + seq![
                            v.model(),
                        ]);
                        assert(model_list(old_acc) + seq![v.model()] =~= model_list(old_acc)
                            + (seq![v.model()] + Seq::<JVal>::empty()));
                    }
                    acc.push(v);
                    return PList::Val(acc, w2 + 1);
                } else if b == B_COMMA {
                    proof {
                        let ghost old_acc = acc@;
                        lemma_model_list(old_acc.push(v));
                        lemma_model_list(old_acc);
                        assert(model_list(old_acc.push(v)) =~= model_list(old_acc) + seq![
                            v.model(),
                        ]);
                        assert(s@.skip(w2 as int).drop_first() =~= s@.skip(w2 as int + 1));
                        match sp_elems(s@.skip(w2 as int + 1)) {
                            ListRes::Found(vs, m) => {
                                assert(model_list(old_acc) + (seq![v.model()] + vs) =~= (
                                model_list(old_acc) + seq![v.model()]) + vs);
                            },
                            _ => {},
                        }
                    }
                    acc.push(v);
                    cur = w2 + 1;
                } else {
                    return PList::Bad;
                }
            },
        }
    }
}

/// One `"key" : value` pair, read from position `i`.
#[verifier::rlimit(100)]
fn parse_member_at(s: &[u8], i: usize) -> (r: PPair)
    requires
        i <= s@.len(),
    ensures
        r matches PPair::Val(k, v, j) ==> i <= j <= s@.len() && sp_member(s@.skip(i as int))
            == PairRes::Found(k@, v.model(), j - i),
        r is More ==> sp_member(s@.skip(i as int)) is More,
        r is Bad ==> sp_member(s@.skip(i as int)) is Bad,
    decreases s@.len() - i, 2int,
{
    let ghost whole = s@.skip(i as int);
    let w = skip_ws_at(s, i);
    proof {
        assert(whole.skip((w - i) as int) =~= s@.skip(w as int));
    }
    let ghost t = s@.skip(w as int);
    if w == s.len() {
        proof {
            assert(t =~= Seq::<u8>::empty());
        }
        return PPair::More;
    }
    let b = s[w];
    assert(b == t[0]);
    if b != B_QUOTE {
        return PPair::Bad;
    }
    proof {
        assert(t.drop_first() =~= s@.skip(w as int + 1));
        lemma_sp_str_bounds(t.drop_first());
    }
    match parse_str_at(s, w + 1) {
        PStr::More => PPair::More,
        PStr::Bad => PPair::Bad,
        PStr::Val(k, j1) => {
            proof {
                assert(t.skip(1 + (j1 - (w + 1))) =~= s@.skip(j1 as int));
            }
            let w2 = skip_ws_at(s, j1);
            proof {
                assert(s@.skip(j1 as int).skip((w2 - j1) as int) =~= s@.skip(w2 as int));
            }
            if w2 == s.len() {
                proof {
                    assert(s@.skip(w2 as int) =~= Seq::<u8>::empty());
                }
                return PPair::More;
            }
            let b2 = s[w2];
            assert(b2 == s@.skip(w2 as int)[0]);
            if b2 != B_COLON {
                return PPair::Bad;
            }
            proof {
                assert(s@.skip(w2 as int).drop_first() =~= s@.skip(w2 as int + 1));
            }
            match parse_at(s, w2 + 1) {
                Parsed::Incomplete => PPair::More,
                Parsed::Malformed => PPair::Bad,
                Parsed::Value(v, j2) => PPair::Val(k, v, j2),
            }
        },
    }
}

/// The members of a non-empty object, read from just after the opening
/// brace.
#[verifier::rlimit(100)]
fn parse_members_at(s: &[u8], i: usize) -> (r: PMembs)
    requires
        i <= s@.len(),
    ensures
        r matches PMembs::Val(vec, j) ==> i <= j <= s@.len() && sp_members(s@.skip(i as int))
            == MembRes::Found(model_members(vec@), j - i),
        r is More ==> sp_members(s@.skip(i as int)) is More,
        r is Bad ==> sp_members(s@.skip(i as int)) is Bad,
    decreases s@.len() - i, 3int,
{
    let mut acc: Vec<(Vec<u8>, Json)> = Vec::new();
    let mut cur = i;
    proof {
        assert(model_members(acc@) =~= Seq::<(Seq<u8>, JVal)>::empty());
        assert(Seq::<(Seq<u8>, JVal)>::empty() + Seq::<(Seq<u8>, JVal)>::empty() =~= Seq::<
            (Seq<u8>, JVal),
        >::empty());
    }
    loop
        invariant
            i <= cur <= s@.len(),
            membs_cont(model_members(acc@), cur - i, sp_members(s@.skip(cur as int)))
                == sp_members(s@.skip(i as int)),
        decreases s@.len() - cur,
    {
        proof {
            lemma_sp_member_bounds(s@.skip(cur as int));
        }
        match parse_member_at(s, cur) {
            PPair::More => {
                return PMembs::More;
            },
            PPair::Bad => {
                return PMembs::Bad;
            },
            PPair::Val(k, v, n) => {
                proof {
                    assert(s@.skip(cur as int).skip((n - cur) as int) =~= s@.skip(n as int));
                }
                let w3 = skip_ws_at(s, n);
                proof {
                    assert(s@.skip(n as int).skip((w3 - n) as int) =~= s@.skip(w3 as int));
                }
                if w3 == s.len() {
                    proof {
                        assert(s@.skip(w3 as int) =~= Seq::<u8>::empty());
                    }
                    return PMembs::More;
                }
                let b = s[w3];
                assert(b == s@.skip(w3 as int)[0]);
                if b == B_RBRACE {
                    proof {
                        let ghost old_acc = acc@;
                        lemma_model_members(old_acc.push((k, v)));
                        lemma_model_members(old_acc);
                        assert(model_members(old_acc.push((k, v))) =~= model_members(old_acc)
                            + seq![(k@, v.model())]);
                        assert(model_members(old_acc) + seq![(k@, v.model())] =~= model_members(
                            old_acc,
                        ) + (seq![(k@, v.model())] + Seq::<(Seq<u8>, JVal)>::empty()));
                    }
                    acc.push((k, v));
                    return PMembs::Val(acc, w3 + 1);
                } else if b == B_COMMA {
                    proof {
                        let ghost old_acc = acc@;
                        lemma_model_members(old_acc.push((k, v)));
                        lemma_model_members(old_acc);
                        assert(model_members(old_acc.push((k, v))) =~= model_members(old_acc)
                            + seq![(k@, v.model())]);
                        assert(s@.skip(w3 as int).drop_first() =~= s@.skip(w3 as int + 1));
                        match sp_members(s@.skip(w3 as int + 1)) {
                            MembRes::Found(ps, q) => {
                                assert(model_members(old_acc) + (seq![(k@, v.model())] + ps)
                                    =~= (model_members(old_acc) + seq![(k@, v.model())]) + ps);
                            },
                            _ => {},
                        }
                    }
                    acc.push((k, v));
                    cur = w3 + 1;
                } else {
                    return PMembs::Bad;
                }
            },
        }
    }
}

/// Try to read one value from the head of `buf`.
pub fn parse_value(buf: &[u8]) -> (r: Parsed)
    ensures
        r matches Parsed::Value(v, n) ==> n <= buf@.len() && sp_value(buf@) == ValRes::Found(
            v.model(),
            n as int,
        ),
        r is Incomplete ==> sp_value(buf@) is More,
        r is Malformed ==> sp_value(buf@) is Bad,
{
    proof {
        assert(buf@.skip(0) =~= buf@);
    }
    parse_at(buf, 0)
}

/// Read a whole document: one value with nothing but whitespace after it.
pub fn parse_document(buf: &[u8]) -> (r: Option<Json>)
    ensures
        r matches Some(v) ==> sp_doc(buf@) == Some(v.model()),
        r is None ==> sp_doc(buf@) is None,
{
    proof {
        assert(buf@.skip(0) =~= buf@);
    }
    match parse_at(buf, 0) {
        Parsed::Value(v, n) => {
            let e = skip_ws_at(buf, n);
            if e == buf.len() {
                Some(v)
            } else {
                None
            }
        },
        _ => None,
    }
}

// ---------------------------------------------------------------------------
// The encoder, run-time side
// ---------------------------------------------------------------------------

proof fn lemma_esc_seq_push(x: Seq<u8>, b: u8)
    ensures
        esc_seq(x.push(b)) == esc_seq(x) + esc1(b),
    decreases x,
{
    if x.len() == 0 {
        assert(x.push(b) =~= seq![b]);
        assert(seq![b][0] == b);
        assert(seq![b].drop_first() =~= Seq::<u8>::empty());
        assert(esc_seq(seq![b]) == esc1(b) + esc_seq(Seq::<u8>::empty()));
        assert(esc1(b) + Seq::<u8>::empty() =~= esc1(b));
        assert(esc_seq(x) + esc1(b) =~= esc1(b));
    } else {
        lemma_esc_seq_push(x.drop_first(), b);
        assert(x.push(b).drop_first() =~= x.drop_first().push(b));
        assert(x.push(b)[0] == x[0]);
        assert(esc1(x[0]) + (esc_seq(x.drop_first()) + esc1(b)) =~= (esc1(x[0]) + esc_seq(
            x.drop_first(),
        )) + esc1(b));
    }
}

proof fn lemma_enc_list_push(xs: Seq<JVal>, x: JVal)
    ensures
        enc_list(xs.push(x)) == if xs.len() == 0 {
            enc(x)
        } else {
            enc_list(xs) + seq![B_COMMA] + enc(x)
        },
    decreases xs,
{
    if xs.len() == 0 {
        assert(xs.push(x) =~= seq![x]);
        assert(seq![x][0] == x);
    } else {
        lemma_enc_list_push(xs.drop_first(), x);
        assert(xs.push(x).drop_first() =~= xs.drop_first().push(x));
        assert(xs.push(x)[0] == xs[0]);
        assert(xs.push(x).len() == xs.len() + 1);
        if xs.len() == 1 {
            assert(enc(xs[0]) + seq![B_COMMA] + enc(x) =~= enc(xs[0]) + (seq![B_COMMA] + enc(
                x,
            )));
            assert(enc_list(xs.push(x)) == enc(xs[0]) + seq![B_COMMA] + enc_list(
                xs.drop_first().push(x),
            ));
        } else {
            assert((enc(xs[0]) + seq![B_COMMA] + enc_list(xs.drop_first())) + seq![B_COMMA]
                + enc(x) =~= enc(xs[0]) + seq![B_COMMA] + (enc_list(xs.drop_first()) + seq![
                B_COMMA,
            ] + enc(x)));
        }
    }
}

proof fn lemma_enc_members_push(xs: Seq<(Seq<u8>, JVal)>, x: (Seq<u8>, JVal))
    ensures
        enc_members(xs.push(x)) == if xs.len() == 0 {
            enc_member(x)
        } else {
            enc_members(xs) + seq![B_COMMA] + enc_member(x)
        },
    decreases xs,
{
    if xs.len() == 0 {
        assert(xs.push(x) =~= seq![x]);
        assert(seq![x][0] == x);
    } else {
        lemma_enc_members_push(xs.drop_first(), x);
        assert(xs.push(x).drop_first() =~= xs.drop_first().push(x));
        assert(xs.push(x)[0] == xs[0]);
        assert(xs.push(x).len() == xs.len() + 1);
        if xs.len() == 1 {
            assert(enc_member(xs[0]) + seq![B_COMMA] + enc_member(x) =~= enc_member(xs[0]) + (
            seq![B_COMMA] + enc_member(x)));
            assert(enc_members(xs.push(x)) == enc_member(xs[0]) + seq![B_COMMA] + enc_members(
                xs.drop_first().push(x),
            ));
        } else {
            assert((enc_member(xs[0]) + seq![B_COMMA] + enc_members(xs.drop_first())) + seq![
                B_COMMA,
            ] + enc_member(x) =~= enc_member(xs[0]) + seq![B_COMMA] + (enc_members(
                xs.drop_first(),
            ) + seq![B_COMMA] + enc_member(x)));
        }
    }
}

/// Append a string, quotes and escapes included, to `out`.
fn encode_str_into(c: &Vec<u8>, out: &mut Vec<u8>)
    ensures
        final(out)@ == old(out)@ + enc_str(c@),
{
    let ghost base = out@;
    out.push(B_QUOTE);
    let mut k: usize = 0;
    proof {
        assert(esc_seq(c@.take(0)) =~= Seq::<u8>::empty());
        assert(out@ =~= base + seq![B_QUOTE] + Seq::<u8>::empty());
    }
    while k < c.len()
        invariant
            k <= c@.len(),
            out@ == base + seq![B_QUOTE] + esc_seq(c@.take(k as int)),
        decreases c@.len() - k,
    {
        let b = c[k];
        proof {
            assert(c@.take(k as int + 1) =~= c@.take(k as int).push(c@[k as int]));
            lemma_esc_seq_push(c@.take(k as int), c@[k as int]);
        }
        if b == B_QUOTE || b == B_BACKSLASH {
            out.push(B_BACKSLASH);
            out.push(b);
            proof {
                assert(out@ =~= base + seq![B_QUOTE] + (esc_seq(c@.take(k as int)) + esc1(
                    c@[k as int],
                )));
            }
        } else {
            out.push(b);
            proof {
                assert(out@ =~= base + seq![B_QUOTE] + (esc_seq(c@.take(k as int)) + esc1(
                    c@[k as int],
                )));
            }
        }
        k = k + 1;
    }
    proof {
        assert(c@.take(c@.len() as int) =~= c@);
    }
    out.push(B_QUOTE);
    proof {
        assert(out@ =~= base + (seq![B_QUOTE] + esc_seq(c@) + seq![B_QUOTE]));
    }
}

/// Append the encoding of a value to `out`.
#[verifier::rlimit(100)]
fn encode_into(j: &Json, out: &mut Vec<u8>)
    ensures
        final(out)@ == old(out)@ + enc(j.model()),
    decreases j,
{
    let ghost base = out@;
    match j {
        Json::Null => {
            out.push(110);
            out.push(117);
            out.push(108);
            out.push(108);
            proof {
                assert(out@ =~= base + lit_null());
            }
        },
        Json::Bool(b) => {
            if *b {
                out.push(116);
                out.push(114);
                out.push(117);
                out.push(101);
                proof {
                    assert(out@ =~= base + lit_true());
                }
            } else {
                out.push(102);
                out.push(97);
                out.push(108);
                out.push(115);
                out.push(101);
                proof {
                    assert(out@ =~= base + lit_false());
                }
            }
        },
        Json::Num(l) => {
            let mut k: usize = 0;
            proof {
                assert(out@ =~= base + l@.take(0));
            }
            while k < l.len()
                invariant
                    k <= l@.len(),
                    out@ == base + l@.take(k as int),
                decreases l@.len() - k,
            {
                out.push(l[k]);
                proof {
                    assert(out@ =~= base + l@.take(k as int + 1));
                }
                k = k + 1;
            }
            proof {
                assert(l@.take(l@.len() as int) =~= l@);
            }
        },
        Json::Str(c) => {
            encode_str_into(c, out);
        },
        Json::Arr(v) => {
            out.push(B_LBRACK);
            let mut idx: usize = 0;
            proof {
                lemma_model_list(v@.take(0));
                assert(model_list(v@.take(0)) =~= Seq::<JVal>::empty());
                assert(out@ =~= base + seq![B_LBRACK] + enc_list(Seq::<JVal>::empty()));
            }
            while idx < v.len()
                invariant
                    idx <= v@.len(),
                    j is Arr,
                    *v == j->Arr_0,
                    out@ == base + seq![B_LBRACK] + enc_list(model_list(v@.take(idx as int))),
                decreases v@.len() - idx,
            {
                proof {
                    lemma_model_list(v@.take(idx as int));
                    lemma_model_list(v@.take(idx as int + 1));
                    assert(model_list(v@.take(idx as int + 1)) =~= model_list(
                        v@.take(idx as int),
                    ).push(v@[idx as int].model()));
                    lemma_enc_list_push(
                        model_list(v@.take(idx as int)),
                        v@[idx as int].model(),
                    );
                }
                if idx > 0 {
                    out.push(B_COMMA);
                }
                proof {
                    assert(*v == j->Arr_0);
                    assert(decreases_to!(j => j->Arr_0));
                    assert(decreases_to!(*v => v@[idx as int]));
                }
                encode_into(&v[idx], out);
                proof {
                    if idx > 0 {
                        assert(out@ =~= base + seq![B_LBRACK] + (enc_list(model_list(v@.take(
                            idx as int,
                        ))) + seq![B_COMMA] + enc(v@[idx as int].model())));
                    } else {
                        assert(out@ =~= base + seq![B_LBRACK] + enc(v@[idx as int].model()));
                    }
                }
                idx = idx + 1;
            }
            proof {
                assert(v@.take(v@.len() as int) =~= v@);
            }
            out.push(B_RBRACK);
            proof {
                assert(out@ =~= base + (seq![B_LBRACK] + enc_list(model_list(v@)) + seq![
                    B_RBRACK,
                ]));
            }
        },
        Json::Obj(v) => {
            out.push(B_LBRACE);
            let mut idx: usize = 0;
            proof {
                lemma_model_members(v@.take(0));
                assert(model_members(v@.take(0)) =~= Seq::<(Seq<u8>, JVal)>::empty());
                assert(out@ =~= base + seq![B_LBRACE] + enc_members(
                    Seq::<(Seq<u8>, JVal)>::empty(),
                ));
            }
            while idx < v.len()
                invariant
                    idx <= v@.len(),
                    j is Obj,
                    *v == j->Obj_0,
                    out@ == base + seq![B_LBRACE] + enc_members(
                        model_members(v@.take(idx as int)),
                    ),
                decreases v@.len() - idx,
            {
                proof {
                    lemma_model_members(v@.take(idx as int));
                    lemma_model_members(v@.take(idx as int + 1));
                    assert(model_members(v@.take(idx as int + 1)) =~= model_members(
                        v@.take(idx as int),
                    ).push((v@[idx as int].0@, v@[idx as int].1.model())));
                    lemma_enc_members_push(
                        model_members(v@.take(idx as int)),
                        (v@[idx as int].0@, v@[idx as int].1.model()),
                    );
                }
                if idx > 0 {
                    out.push(B_COMMA);
                }
                let ghost mid = out@;
                proof {
                    assert(*v == j->Obj_0);
                    assert(decreases_to!(j => j->Obj_0));
                    assert(decreases_to!(*v => v@[idx as int]));
                    assert(decreases_to!(v@[idx as int] => v@[idx as int].1));
                }
                encode_str_into(&v[idx].0, out);
                out.push(B_COLON);
                encode_into(&v[idx].1, out);
                proof {
                    assert(out@ =~= mid + (enc_str(v@[idx as int].0@) + seq![B_COLON] + enc(
                        v@[idx as int].1.model(),
                    )));
                    if idx > 0 {
                        assert(out@ =~= base + seq![B_LBRACE] + (enc_members(model_members(
                            v@.take(idx as int),
                        )) + seq![B_COMMA] + enc_member(
                            (v@[idx as int].0@, v@[idx as int].1.model()),
                        )));
                    } else {
                        assert(out@ =~= base + seq![B_LBRACE] + enc_member(
                            (v@[idx as int].0@, v@[idx as int].1.model()),
                        ));
                    }
                }
                idx = idx + 1;
            }
            proof {
                assert(v@.take(v@.len() as int) =~= v@);
            }
            out.push(B_RBRACE);
            proof {
                assert(out@ =~= base + (seq![B_LBRACE] + enc_members(model_members(v@)) + seq![
                    B_RBRACE,
                ]));
            }
        },
    }
}

/// The bytes a value is written as.
pub fn encode_value(j: &Json) -> (r: Vec<u8>)
    ensures
        r@ == enc(j.model()),
{
    let mut out: Vec<u8> = Vec::new();
    encode_into(j, &mut out);
    proof {
        assert(Seq::<u8>::empty() + enc(j.model()) =~= enc(j.model()));
    }
    out
}



/// A fresh copy of a byte vector.
pub fn clone_bytes(v: &Vec<u8>) -> (r: Vec<u8>)
    ensures
        r@ == v@,
{
    let mut out: Vec<u8> = Vec::new();
    let mut k: usize = 0;
    while k < v.len()
        invariant
            k <= v@.len(),
            out@ =~= v@.take(k as int),
        decreases v@.len() - k,
    {
        out.push(v[k]);
        proof {
            assert(out@ =~= v@.take(k as int + 1));
        }
        k = k + 1;
    }
    proof {
        assert(v@.take(v@.len() as int) =~= v@);
    }
    out
}

impl Clone for Json {
    /// A fresh tree standing for the same value.
    fn clone(&self) -> (r: Json)
        ensures
            r.model() == self.model(),
        decreases self,
    {
        match self {
            Json::Null => Json::Null,
            Json::Bool(b) => Json::Bool(*b),
            Json::Num(l) => Json::Num(clone_bytes(l)),
            Json::Str(s) => Json::Str(clone_bytes(s)),
            Json::Arr(v) => {
                let mut out: Vec<Json> = Vec::new();
                let mut idx: usize = 0;
                proof {
                    lemma_model_list(out@);
                    lemma_model_list(v@.take(0));
                }
                while idx < v.len()
                    invariant
                        idx <= v@.len(),
                        self is Arr,
                        *v == self->Arr_0,
                        out@.len() == idx,
                        model_list(out@) == model_list(v@.take(idx as int)),
                    decreases v@.len() - idx,
                {
                    proof {
                        assert(decreases_to!(self => self->Arr_0));
                        assert(decreases_to!(*v => v@[idx as int]));
                    }
                    let c = v[idx].clone();
                    proof {
                        lemma_model_list(out@.push(c));
                        lemma_model_list(out@);
                        lemma_model_list(v@.take(idx as int + 1));
                        lemma_model_list(v@.take(idx as int));
                        assert(c.model() == v@[idx as int].model());
                        assert forall|i: int| 0 <= i < idx + 1 implies model_list(out@.push(c))[i]
                            == model_list(v@.take(idx as int + 1))[i] by {
                            assert(v@.take(idx as int + 1)[i] == v@[i]);
                            if i < idx {
                                assert(out@.push(c)[i] == out@[i]);
                                assert(v@.take(idx as int)[i] == v@[i]);
                                assert(model_list(out@)[i] == model_list(v@.take(idx as int))[i]);
                            } else {
                                assert(out@.push(c)[i] == c);
                            }
                        }
                        assert(model_list(out@.push(c)) =~= model_list(v@.take(idx as int + 1)));
                    }
                    out.push(c);
                    idx = idx + 1;
                }
                proof {
                    assert(v@.take(v@.len() as int) =~= v@);
                }
                Json::Arr(out)
            },
            Json::Obj(v) => {
                let mut out: Vec<(Vec<u8>, Json)> = Vec::new();
                let mut idx: usize = 0;
                proof {
                    lemma_model_members(out@);
                    lemma_model_members(v@.take(0));
                }
                while idx < v.len()
                    invariant
                        idx <= v@.len(),
                        self is Obj,
                        *v == self->Obj_0,
                        out@.len() == idx,
                        model_members(out@) == model_members(v@.take(idx as int)),
                    decreases v@.len() - idx,
                {
                    proof {
                        assert(decreases_to!(self => self->Obj_0));
                        assert(decreases_to!(*v => v@[idx as int]));
                        assert(decreases_to!(v@[idx as int] => v@[idx as int].1));
                    }
                    let k = clone_bytes(&v[idx].0);
                    let c = v[idx].1.clone();
                    proof {
                        lemma_model_members(out@.push((k, c)));
                        lemma_model_members(out@);
                        lemma_model_members(v@.take(idx as int + 1));
                        lemma_model_members(v@.take(idx as int));
                        assert(k@ == v@[idx as int].0@);
                        assert(c.model() == v@[idx as int].1.model());
                        assert forall|i: int| 0 <= i < idx + 1 implies model_members(
                            out@.push((k, c)),
                        )[i] == model_members(v@.take(idx as int + 1))[i] by {
                            assert(v@.take(idx as int + 1)[i] == v@[i]);
                            if i < idx {
                                assert(out@.push((k, c))[i] == out@[i]);
                                assert(v@.take(idx as int)[i] == v@[i]);
                                assert(model_members(out@)[i] == model_members(
                                    v@.take(idx as int),
                                )[i]);
                            } else {
                                assert(out@.push((k, c))[i] == (k, c));
                            }
                        }
                        assert(model_members(out@.push((k, c))) =~= model_members(
                            v@.take(idx as int + 1),
                        ));
                    }
                    out.push((k, c));
                    idx = idx + 1;
                }
                proof {
                    assert(v@.take(v@.len() as int) =~= v@);
                }
                Json::Obj(out)
            },
        }
    }
}

} // verus!
