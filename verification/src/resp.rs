use vstd::prelude::*;
use vstd::utf8::{valid_utf8, decode_utf8, encode_utf8};

verus! {

broadcast use {vstd::slice::group_slice_axioms, vstd::std_specs::vec::group_vec_axioms};

/// A RESP value.
#[derive(Debug, PartialEq)]
pub enum Resp {
    String(String),
    Error(String),
    Integer(i64),
    /// The declared length, and the payload.
    BulkString(i64, String),
    NullBulkString,
    /// The declared element count, and the elements.
    Array(i64, Vec<Resp>),
    Boolean(bool),
    /// A double, kept as the text it was written in.
    Double(String),
}

/// The outcome of reading one message from the front of a buffer.
#[derive(Debug, PartialEq)]
pub enum ParseResult {
    /// A whole message, and how many bytes it took.
    Complete(Resp, usize),
    /// The buffer does not start with a well-formed message.
    Malformed,
    /// The buffer holds the start of a message but not all of it yet.
    Incomplete,
}

/// A RESP value as mathematics: strings as their characters.
pub enum RespView {
    String(Seq<char>),
    Error(Seq<char>),
    Integer(i64),
    BulkString(i64, Seq<char>),
    NullBulkString,
    Array(i64, Seq<RespView>),
    Boolean(bool),
    Double(Seq<char>),
}

/// What reading one message from the front of some bytes gives.
pub enum ParseView {
    Complete(RespView, nat),
    Malformed,
    Incomplete,
    /// An array header declares a negative element count, which no element
    /// vector can be allocated for.
    NegativeCount,
}

/// What reading a given number of messages in a row gives.
pub enum ListView {
    Done(Seq<RespView>, nat),
    Malformed,
    Incomplete,
    NegativeCount,
}

pub open spec fn resp_view(r: Resp) -> RespView
    decreases r,
{
    match r {
        Resp::String(s) => RespView::String(s@),
        Resp::Error(s) => RespView::Error(s@),
        Resp::Integer(n) => RespView::Integer(n),
        Resp::BulkString(n, s) => RespView::BulkString(n, s@),
        Resp::NullBulkString => RespView::NullBulkString,
        Resp::Array(n, v) => RespView::Array(n, resps_view(v@)),
        Resp::Boolean(b) => RespView::Boolean(b),
        Resp::Double(s) => RespView::Double(s@),
    }
}

pub open spec fn resps_view(s: Seq<Resp>) -> Seq<RespView>
    decreases s,
{
    if s.len() == 0 {
        Seq::empty()
    } else {
        resps_view(s.subrange(0, s.len() - 1)).push(resp_view(s[s.len() - 1]))
    }
}

impl View for Resp {
    type V = RespView;

    open spec fn view(&self) -> RespView {
        resp_view(*self)
    }
}

impl View for ParseResult {
    type V = ParseView;

    open spec fn view(&self) -> ParseView {
        match self {
            ParseResult::Complete(r, n) => ParseView::Complete(r@, *n as nat),
            ParseResult::Malformed => ParseView::Malformed,
            ParseResult::Incomplete => ParseView::Incomplete,
        }
    }
}


// ---------------------------------------------------------------------------
// Lines

/// A CR LF pair starts at position `i`.
pub open spec fn crlf_at(b: Seq<u8>, i: int) -> bool {
    0 <= i && i + 1 < b.len() && b[i] == 13 && b[i + 1] == 10
}

/// Position `i` holds the first CR LF pair that starts at or after `from`.
pub open spec fn is_first_crlf(b: Seq<u8>, from: int, i: int) -> bool {
    &&& from <= i
    &&& crlf_at(b, i)
    &&& forall|j: int| from <= j < i ==> !crlf_at(b, j)
}

/// Where the first CR LF pair at or after `from` starts, if there is one.
pub open spec fn first_crlf(b: Seq<u8>, from: int) -> Option<int> {
    if exists|i: int| is_first_crlf(b, from, i) {
        Some(choose|i: int| is_first_crlf(b, from, i))
    } else {
        None
    }
}

/// At most one position is the first CR LF from a given start.
pub proof fn lemma_first_crlf_unique(b: Seq<u8>, from: int, i: int)
    requires
        is_first_crlf(b, from, i),
    ensures
        first_crlf(b, from) == Some(i),
{
    let k = choose|k: int| is_first_crlf(b, from, k);
    if k < i {
        assert(!crlf_at(b, k));
    } else if i < k {
        assert(!crlf_at(b, i));
    }
}

/// Finds the first CR LF pair at or after `from`.
fn find_crlf(buf: &[u8], from: usize) -> (r: Option<usize>)
    requires
        from <= buf@.len(),
    ensures
        r matches Some(i) ==> first_crlf(buf@, from as int) == Some(i as int) && from <= i && i
            + 2 <= buf.len(),
        r is None ==> first_crlf(buf@, from as int) is None,
{
    let mut i = from;
    while buf.len() - i >= 2
        invariant
            from <= i <= buf@.len(),
            forall|j: int| from <= j < i ==> !crlf_at(buf@, j),
        decreases buf@.len() - i,
    {
        if buf[i] == 13 && buf[i + 1] == 10 {
            proof {
                lemma_first_crlf_unique(buf@, from as int, i as int);
            }
            return Some(i);
        }
        i = i + 1;
    }
    proof {
        assert forall|k: int| !is_first_crlf(buf@, from as int, k) by {
            if is_first_crlf(buf@, from as int, k) {
                assert(crlf_at(buf@, k));
            }
        }
    }
    None
}

// ---------------------------------------------------------------------------
// Integers

/// An ASCII decimal digit.
pub open spec fn is_digit(b: u8) -> bool {
    48 <= b <= 57
}

pub open spec fn all_digits(s: Seq<u8>) -> bool {
    forall|i: int| 0 <= i < s.len() ==> is_digit(s[i])
}

/// The number that a string of decimal digits writes.
pub open spec fn digits_value(s: Seq<u8>) -> nat
    decreases s.len(),
{
    if s.len() == 0 {
        0
    } else {
        digits_value(s.drop_last()) * 10 + (s.last() - 48) as nat
    }
}

/// The text after an optional leading `+` or `-`.
pub open spec fn unsigned_part(s: Seq<u8>) -> Seq<u8> {
    if s.len() > 0 && (s[0] == 43 || s[0] == 45) {
        s.subrange(1, s.len() as int)
    } else {
        s
    }
}

/// The `i64` that the text writes, as `str::parse::<i64>` reads it: an optional
/// sign, then one or more decimal digits, the value within range; `None` otherwise.
pub open spec fn parse_i64(s: Seq<u8>) -> Option<i64> {
    let d = unsigned_part(s);
    if d.len() == 0 || !all_digits(d) {
        None
    } else if s[0] == 45 {
        if digits_value(d) <= 0x8000_0000_0000_0000 {
            Some((0 - digits_value(d)) as i64)
        } else {
            None
        }
    } else if digits_value(d) <= 0x7fff_ffff_ffff_ffff {
        Some(digits_value(d) as i64)
    } else {
        None
    }
}

/// Appending a digit never makes a number smaller.
proof fn lemma_digits_value_prefix(s: Seq<u8>, k: int)
    requires
        0 <= k <= s.len(),
        all_digits(s),
    ensures
        digits_value(s.subrange(0, k)) <= digits_value(s),
    decreases s.len(),
{
    if k < s.len() {
        lemma_digits_value_prefix(s.drop_last(), k);
        assert(s.drop_last().subrange(0, k) =~= s.subrange(0, k));
    } else {
        assert(s.subrange(0, k) =~= s);
    }
}

/// Reads an `i64` written in decimal, with an optional sign.
fn parse_int(buf: &[u8]) -> (r: Option<i64>)
    ensures
        r == parse_i64(buf@),
{
    let len = buf.len();
    if len == 0 {
        return None;
    }
    let neg = buf[0] == 45;
    let start: usize = if buf[0] == 45 || buf[0] == 43 { 1 } else { 0 };
    let ghost d = unsigned_part(buf@);
    proof {
        assert(d =~= buf@.subrange(start as int, len as int));
    }
    if start == len {
        return None;
    }
    let limit: u64 = if neg { 0x8000_0000_0000_0000 } else { 0x7fff_ffff_ffff_ffff };
    let mut acc: u64 = 0;
    let mut i = start;
    while i < len
        invariant
            start <= i <= len,
            len == buf@.len(),
            d == buf@.subrange(start as int, len as int),
            d == unsigned_part(buf@),
            all_digits(d.subrange(0, i - start)),
            acc == digits_value(d.subrange(0, i - start)),
            acc <= limit,
            limit == if neg { 0x8000_0000_0000_0000u64 } else { 0x7fff_ffff_ffff_ffffu64 },
            neg == (buf@[0] == 45),
        decreases len - i,
    {
        let b = buf[i];
        if b < 48 || b > 57 {
            proof {
                assert(!is_digit(d[i - start]));
                assert(!all_digits(d));
            }
            return None;
        }
        let digit = (b - 48) as u64;
        proof {
            assert(d.subrange(0, i + 1 - start).drop_last() =~= d.subrange(0, i - start));
        }
        if acc > (limit - digit) / 10 {
            proof {
                if all_digits(d) {
                    lemma_digits_value_prefix(d, i + 1 - start);
                    assert(digits_value(d.subrange(0, i + 1 - start)) == acc * 10 + digit);
                }
            }
            return None;
        }
        acc = acc * 10 + digit;
        i = i + 1;
    }
    proof {
        assert(d.subrange(0, len - start) =~= d);
    }
    if neg {
        if acc == 0x8000_0000_0000_0000 {
            Some(i64::MIN)
        } else {
            Some(0 - (acc as i64))
        }
    } else {
        Some(acc as i64)
    }
}

// ---------------------------------------------------------------------------
// Doubles

/// ASCII lower case.
pub open spec fn ascii_lower(b: u8) -> u8 {
    if 65 <= b <= 90 {
        (b + 32) as u8
    } else {
        b
    }
}

/// `s` spells the lower-case word `w`, letters in either case.
pub open spec fn spells(s: Seq<u8>, w: Seq<u8>) -> bool {
    s.len() == w.len() && forall|i: int| 0 <= i < s.len() ==> ascii_lower(s[i]) == w[i]
}

/// Digits with at most one `.` among them, and at least one digit.
pub open spec fn is_mantissa(s: Seq<u8>) -> bool {
    &&& forall|i: int| 0 <= i < s.len() ==> is_digit(s[i]) || s[i] == 46
    &&& forall|i: int, j: int| 0 <= i < j < s.len() ==> !(s[i] == 46 && s[j] == 46)
    &&& exists|i: int| 0 <= i < s.len() && is_digit(s[i])
}

/// An optional sign, then one or more digits.
pub open spec fn is_exponent(s: Seq<u8>) -> bool {
    unsigned_part(s).len() > 0 && all_digits(unsigned_part(s))
}

/// `e` or `E`.
pub open spec fn is_exp_mark(b: u8) -> bool {
    b == 101 || b == 69
}

/// A decimal number with an optional exponent.
pub open spec fn is_number(s: Seq<u8>) -> bool {
    ||| is_mantissa(s)
    ||| exists|k: int|
        0 <= k < s.len() && is_exp_mark(s[k]) && is_mantissa(s.subrange(0, k)) && is_exponent(
            s.subrange(k + 1, s.len() as int),
        )
}

/// Text that `str::parse::<f64>` accepts: an optional sign, then `inf`,
/// `infinity`, `nan` (in any case) or a decimal number with an optional exponent.
pub open spec fn is_float_text(s: Seq<u8>) -> bool {
    let body = unsigned_part(s);
    ||| spells(body, seq![105u8, 110, 102])
    ||| spells(body, seq![105u8, 110, 102, 105, 110, 105, 116, 121])
    ||| spells(body, seq![110u8, 97, 110])
    ||| is_number(body)
}

fn lower(b: u8) -> (r: u8)
    ensures
        r == ascii_lower(b),
{
    if 65 <= b && b <= 90 {
        b + 32
    } else {
        b
    }
}

fn spells_exec(s: &[u8], w: &[u8]) -> (r: bool)
    ensures
        r == spells(s@, w@),
{
    if s.len() != w.len() {
        return false;
    }
    let mut i: usize = 0;
    while i < s.len()
        invariant
            s@.len() == w@.len(),
            i <= s@.len(),
            forall|j: int| 0 <= j < i ==> ascii_lower(s@[j]) == w@[j],
        decreases s@.len() - i,
    {
        if lower(s[i]) != w[i] {
            return false;
        }
        i = i + 1;
    }
    true
}

fn is_mantissa_exec(s: &[u8]) -> (r: bool)
    ensures
        r == is_mantissa(s@),
{
    let mut seen_dot = false;
    let mut seen_digit = false;
    let mut i: usize = 0;
    while i < s.len()
        invariant
            i <= s@.len(),
            forall|j: int| 0 <= j < i ==> is_digit(s@[j]) || s@[j] == 46,
            forall|a: int, b: int| 0 <= a < b < i ==> !(s@[a] == 46 && s@[b] == 46),
            seen_dot <==> exists|j: int| 0 <= j < i && s@[j] == 46,
            seen_digit <==> exists|j: int| 0 <= j < i && is_digit(s@[j]),
        decreases s@.len() - i,
    {
        let b = s[i];
        if 48 <= b && b <= 57 {
            seen_digit = true;
        } else if b == 46 {
            if seen_dot {
                return false;
            }
            seen_dot = true;
        } else {
            return false;
        }
        i = i + 1;
    }
    seen_digit
}

fn all_digits_exec(s: &[u8]) -> (r: bool)
    ensures
        r == all_digits(s@),
{
    let mut i: usize = 0;
    while i < s.len()
        invariant
            i <= s@.len(),
            forall|j: int| 0 <= j < i ==> is_digit(s@[j]),
        decreases s@.len() - i,
    {
        if s[i] < 48 || s[i] > 57 {
            return false;
        }
        i = i + 1;
    }
    true
}

/// The part of `s` after an optional leading sign.
fn unsigned_slice(s: &[u8]) -> (r: &[u8])
    ensures
        r@ == unsigned_part(s@),
{
    if s.len() > 0 && (s[0] == 43 || s[0] == 45) {
        &s[1..s.len()]
    } else {
        s
    }
}

fn is_number_exec(s: &[u8]) -> (r: bool)
    ensures
        r == is_number(s@),
{
    let mut k: usize = 0;
    while k < s.len()
        invariant
            k <= s@.len(),
            forall|j: int| 0 <= j < k ==> !is_exp_mark(s@[j]),
        decreases s@.len() - k,
    {
        if s[k] == 101 || s[k] == 69 {
            let m = is_mantissa_exec(&s[0..k]);
            let e = unsigned_slice(&s[k + 1..s.len()]);
            let ok = m && e.len() > 0 && all_digits_exec(e);
            proof {
                assert(!is_mantissa(s@)) by {
                    assert(!(is_digit(s@[k as int]) || s@[k as int] == 46));
                }
                if !ok {
                    assert forall|k2: int|
                        !(0 <= k2 < s@.len() && is_exp_mark(s@[k2]) && is_mantissa(
                            s@.subrange(0, k2),
                        ) && is_exponent(s@.subrange(k2 + 1, s@.len() as int))) by {
                        if 0 <= k2 < s@.len() && is_exp_mark(s@[k2]) && is_mantissa(
                            s@.subrange(0, k2),
                        ) {
                            if k2 > k {
                                assert(s@.subrange(0, k2)[k as int] == s@[k as int]);
                            }
                        }
                    }
                }
            }
            return ok;
        }
        k = k + 1;
    }
    let m = is_mantissa_exec(s);
    proof {
        assert forall|k2: int|
            !(0 <= k2 < s@.len() && is_exp_mark(s@[k2]) && is_mantissa(s@.subrange(0, k2))
                && is_exponent(s@.subrange(k2 + 1, s@.len() as int))) by {}
    }
    m
}

/// Whether `str::parse::<f64>` accepts the text.
fn is_float_text_exec(s: &[u8]) -> (r: bool)
    ensures
        r == is_float_text(s@),
{
    let body = unsigned_slice(s);
    let inf: [u8; 3] = [105, 110, 102];
    let infinity: [u8; 8] = [105, 110, 102, 105, 110, 105, 116, 121];
    let nan: [u8; 3] = [110, 97, 110];
    let a = spells_exec(body, &inf);
    let b = spells_exec(body, &infinity);
    let c = spells_exec(body, &nan);
    proof {
        assert(inf@ =~= seq![105u8, 110, 102]);
        assert(infinity@ =~= seq![105u8, 110, 102, 105, 110, 105, 116, 121]);
        assert(nan@ =~= seq![110u8, 97, 110]);
    }
    a || b || c || is_number_exec(body)
}


// ---------------------------------------------------------------------------
// Messages

/// Decodes bytes as UTF-8, as `String::from_utf8` does: a string when the bytes
/// are valid UTF-8, nothing when they are not.
#[verifier::external_body]
fn string_from_utf8(bytes: Vec<u8>) -> (r: Option<std::string::String>)
    ensures
        r is Some <==> valid_utf8(bytes@),
        r matches Some(s) ==> s@ == decode_utf8(bytes@),
{
    match std::string::String::from_utf8(bytes) {
        Ok(s) => Some(s),
        Err(_) => None,
    }
}

/// The text that some bytes encode in UTF-8, if they are valid UTF-8.
fn utf8_text(bytes: &[u8]) -> (r: Option<std::string::String>)
    ensures
        r is Some <==> valid_utf8(bytes@),
        r matches Some(s) ==> s@ == decode_utf8(bytes@),
{
    let mut v: Vec<u8> = Vec::new();
    let mut i: usize = 0;
    while i < bytes.len()
        invariant
            i <= bytes@.len(),
            v@ == bytes@.subrange(0, i as int),
        decreases bytes@.len() - i,
    {
        v.push(bytes[i]);
        i = i + 1;
    }
    proof {
        assert(v@ =~= bytes@);
    }
    string_from_utf8(v)
}

/// The text between the type byte and the first CR LF.
pub open spec fn header(b: Seq<u8>, i: int) -> Seq<u8> {
    b.subrange(1, i)
}

/// A simple string: `+`, text, CR LF.
pub open spec fn spec_parse_simple_string(b: Seq<u8>) -> ParseView {
    match first_crlf(b, 1) {
        Some(i) => if valid_utf8(header(b, i)) {
            ParseView::Complete(RespView::String(decode_utf8(header(b, i))), (i + 2) as nat)
        } else {
            ParseView::Malformed
        },
        None => ParseView::Incomplete,
    }
}

/// A simple error: `-`, text, CR LF.
pub open spec fn spec_parse_error(b: Seq<u8>) -> ParseView {
    match first_crlf(b, 1) {
        Some(i) => if valid_utf8(header(b, i)) {
            ParseView::Complete(RespView::Error(decode_utf8(header(b, i))), (i + 2) as nat)
        } else {
            ParseView::Malformed
        },
        None => ParseView::Incomplete,
    }
}

/// An integer: `:`, a decimal `i64`, CR LF.
pub open spec fn spec_parse_integer(b: Seq<u8>) -> ParseView {
    match first_crlf(b, 1) {
        Some(i) => match parse_i64(header(b, i)) {
            Some(n) => ParseView::Complete(RespView::Integer(n), (i + 2) as nat),
            None => ParseView::Malformed,
        },
        None => ParseView::Incomplete,
    }
}

/// A bulk string: `$`, a length, CR LF, then exactly that many payload bytes
/// (CR LF among them included) and CR LF; `$-1` CR LF is the null bulk string.
pub open spec fn spec_parse_bulk_string(b: Seq<u8>) -> ParseView {
    match first_crlf(b, 1) {
        None => ParseView::Incomplete,
        Some(i) => match parse_i64(header(b, i)) {
            None => ParseView::Malformed,
            Some(len) => if len < -1 {
                ParseView::Malformed
            } else if len == -1 {
                ParseView::Complete(RespView::NullBulkString, (i + 2) as nat)
            } else if i + 2 + len + 2 > b.len() {
                ParseView::Incomplete
            } else if !crlf_at(b, i + 2 + len) {
                ParseView::Malformed
            } else if valid_utf8(b.subrange(i + 2, i + 2 + len)) {
                ParseView::Complete(
                    RespView::BulkString(len, decode_utf8(b.subrange(i + 2, i + 2 + len))),
                    (i + 2 + len + 2) as nat,
                )
            } else {
                ParseView::Malformed
            },
        },
    }
}

/// A boolean: `#`, `t` or `f`, CR LF.
pub open spec fn spec_parse_boolean(b: Seq<u8>) -> ParseView {
    match first_crlf(b, 1) {
        Some(i) => if header(b, i) == seq![116u8] {
            ParseView::Complete(RespView::Boolean(true), (i + 2) as nat)
        } else if header(b, i) == seq![102u8] {
            ParseView::Complete(RespView::Boolean(false), (i + 2) as nat)
        } else {
            ParseView::Malformed
        },
        None => ParseView::Incomplete,
    }
}

/// A double: `,`, text that `str::parse::<f64>` accepts, CR LF.
pub open spec fn spec_parse_double(b: Seq<u8>) -> ParseView {
    match first_crlf(b, 1) {
        Some(i) => if valid_utf8(header(b, i)) && is_float_text(header(b, i)) {
            ParseView::Complete(RespView::Double(decode_utf8(header(b, i))), (i + 2) as nat)
        } else {
            ParseView::Malformed
        },
        None => ParseView::Incomplete,
    }
}

/// Puts already-read values and their byte count in front of what follows.
pub open spec fn prepend(acc: Seq<RespView>, used: nat, rest: ListView) -> ListView {
    match rest {
        ListView::Done(rs, n) => ListView::Done(acc + rs, used + n),
        other => other,
    }
}

/// One RESP message from the front of `b`.
pub open spec fn spec_parse(b: Seq<u8>) -> ParseView
    decreases b.len(), 1int, 0int,
{
    if b.len() == 0 {
        ParseView::Incomplete
    } else if b[0] == 43 {
        spec_parse_simple_string(b)
    } else if b[0] == 45 {
        spec_parse_error(b)
    } else if b[0] == 58 {
        spec_parse_integer(b)
    } else if b[0] == 36 {
        spec_parse_bulk_string(b)
    } else if b[0] == 35 {
        spec_parse_boolean(b)
    } else if b[0] == 44 {
        spec_parse_double(b)
    } else if b[0] == 42 {
        spec_parse_array(b)
    } else {
        ParseView::Malformed
    }
}

/// An array: `*`, an element count, CR LF, then that many messages.
pub open spec fn spec_parse_array(b: Seq<u8>) -> ParseView
    decreases b.len(), 0int, 0int,
{
    match first_crlf(b, 1) {
        None => ParseView::Incomplete,
        Some(i) => match parse_i64(header(b, i)) {
            None => ParseView::Malformed,
            Some(n) => if n < 0 {
                ParseView::NegativeCount
            } else if 1 <= i && i + 2 <= b.len() {
                match spec_parse_list(b.subrange(i + 2, b.len() as int), n as nat) {
                    ListView::Done(elems, m) => ParseView::Complete(
                        RespView::Array(n, elems),
                        (i + 2 + m) as nat,
                    ),
                    ListView::Malformed => ParseView::Malformed,
                    ListView::Incomplete => ParseView::Incomplete,
                    ListView::NegativeCount => ParseView::NegativeCount,
                }
            } else {
                ParseView::Malformed
            },
        },
    }
}

/// `k` RESP messages in a row from the front of `rest`.
pub open spec fn spec_parse_list(rest: Seq<u8>, k: nat) -> ListView
    decreases rest.len(), 2int, k,
{
    if k == 0 {
        ListView::Done(Seq::empty(), 0)
    } else {
        match spec_parse(rest) {
            ParseView::Complete(r, m) => if m <= rest.len() {
                prepend(
                    seq![r],
                    m,
                    spec_parse_list(rest.subrange(m as int, rest.len() as int), (k - 1) as nat),
                )
            } else {
                ListView::Malformed
            },
            ParseView::Malformed => ListView::Malformed,
            ParseView::Incomplete => ListView::Incomplete,
            ParseView::NegativeCount => ListView::NegativeCount,
        }
    }
}

proof fn lemma_prepend_compose(acc: Seq<RespView>, a: nat, r: RespView, m: nat, x: ListView)
    ensures
        prepend(acc, a, prepend(seq![r], m, x)) == prepend(acc.push(r), a + m, x),
{
    if let ListView::Done(rs, n) = x {
        assert(acc + (seq![r] + rs) =~= acc.push(r) + rs);
    }
}

/// Where a line-terminated message's header ends: a first CR LF after the type byte.
proof fn lemma_header_bounds(b: Seq<u8>, i: int)
    requires
        first_crlf(b, 1) == Some(i),
    ensures
        1 <= i,
        i + 2 <= b.len(),
{
    let k = choose|k: int| is_first_crlf(b, 1, k);
    assert(is_first_crlf(b, 1, k));
}

fn parse_simple_string(buf: &[u8]) -> (r: ParseResult)
    requires
        buf@.len() >= 1,
    ensures
        r@ == spec_parse_simple_string(buf@),
        r matches ParseResult::Complete(_, n) ==> 3 <= n <= buf@.len(),
{
    match find_crlf(buf, 1) {
        Some(i) => {
            proof {
                lemma_header_bounds(buf@, i as int);
            }
            match utf8_text(&buf[1..i]) {
                Some(s) => ParseResult::Complete(Resp::String(s), i + 2),
                None => ParseResult::Malformed,
            }
        },
        None => ParseResult::Incomplete,
    }
}

fn parse_error(buf: &[u8]) -> (r: ParseResult)
    requires
        buf@.len() >= 1,
    ensures
        r@ == spec_parse_error(buf@),
        r matches ParseResult::Complete(_, n) ==> 3 <= n <= buf@.len(),
{
    match find_crlf(buf, 1) {
        Some(i) => {
            proof {
                lemma_header_bounds(buf@, i as int);
            }
            match utf8_text(&buf[1..i]) {
                Some(s) => ParseResult::Complete(Resp::Error(s), i + 2),
                None => ParseResult::Malformed,
            }
        },
        None => ParseResult::Incomplete,
    }
}

fn parse_integer(buf: &[u8]) -> (r: ParseResult)
    requires
        buf@.len() >= 1,
    ensures
        r@ == spec_parse_integer(buf@),
        r matches ParseResult::Complete(_, n) ==> 3 <= n <= buf@.len(),
{
    match find_crlf(buf, 1) {
        Some(i) => {
            proof {
                lemma_header_bounds(buf@, i as int);
            }
            match parse_int(&buf[1..i]) {
                Some(n) => ParseResult::Complete(Resp::Integer(n), i + 2),
                None => ParseResult::Malformed,
            }
        },
        None => ParseResult::Incomplete,
    }
}

fn parse_bulk_string(buf: &[u8]) -> (r: ParseResult)
    requires
        buf@.len() >= 1,
    ensures
        r@ == spec_parse_bulk_string(buf@),
        r matches ParseResult::Complete(_, n) ==> 3 <= n <= buf@.len(),
{
    let i = match find_crlf(buf, 1) {
        Some(i) => i,
        None => {
            return ParseResult::Incomplete;
        },
    };
    proof {
        lemma_header_bounds(buf@, i as int);
    }
    let len = match parse_int(&buf[1..i]) {
        Some(len) => len,
        None => {
            return ParseResult::Malformed;
        },
    };
    if len < -1 {
        return ParseResult::Malformed;
    }
    if len == -1 {
        return ParseResult::Complete(Resp::NullBulkString, i + 2);
    }
    let string_start = i + 2;
    let room = buf.len() - string_start;
    if (len as u64) + 2 > room as u64 {
        return ParseResult::Incomplete;
    }
    let string_end = string_start + len as usize;
    if buf[string_end] != 13 || buf[string_end + 1] != 10 {
        return ParseResult::Malformed;
    }
    match utf8_text(&buf[string_start..string_end]) {
        Some(s) => ParseResult::Complete(Resp::BulkString(len, s), string_end + 2),
        None => ParseResult::Malformed,
    }
}

fn parse_boolean(buf: &[u8]) -> (r: ParseResult)
    requires
        buf@.len() >= 1,
    ensures
        r@ == spec_parse_boolean(buf@),
        r matches ParseResult::Complete(_, n) ==> 3 <= n <= buf@.len(),
{
    match find_crlf(buf, 1) {
        Some(i) => {
            proof {
                lemma_header_bounds(buf@, i as int);
            }
            let ghost h = header(buf@, i as int);
            if i == 2 && buf[1] == 116 {
                proof {
                    assert(h =~= seq![116u8]);
                }
                ParseResult::Complete(Resp::Boolean(true), i + 2)
            } else if i == 2 && buf[1] == 102 {
                proof {
                    assert(h =~= seq![102u8]);
                    assert(h != seq![116u8]) by {
                        assert(h[0] != seq![116u8][0]);
                    }
                }
                ParseResult::Complete(Resp::Boolean(false), i + 2)
            } else {
                proof {
                    if i == 2 {
                        assert(h[0] == buf@[1]);
                    }
                    assert(h != seq![116u8]) by {
                        if i == 2 {
                            assert(h[0] != seq![116u8][0]);
                        } else {
                            assert(h.len() != 1);
                        }
                    }
                    assert(h != seq![102u8]) by {
                        if i == 2 {
                            assert(h[0] != seq![102u8][0]);
                        } else {
                            assert(h.len() != 1);
                        }
                    }
                }
                ParseResult::Malformed
            }
        },
        None => ParseResult::Incomplete,
    }
}

fn parse_double(buf: &[u8]) -> (r: ParseResult)
    requires
        buf@.len() >= 1,
    ensures
        r@ == spec_parse_double(buf@),
        r matches ParseResult::Complete(_, n) ==> 3 <= n <= buf@.len(),
{
    match find_crlf(buf, 1) {
        Some(i) => {
            proof {
                lemma_header_bounds(buf@, i as int);
            }
            let text = &buf[1..i];
            match utf8_text(text) {
                Some(s) => if is_float_text_exec(text) {
                    ParseResult::Complete(Resp::Double(s), i + 2)
                } else {
                    ParseResult::Malformed
                },
                None => ParseResult::Malformed,
            }
        },
        None => ParseResult::Incomplete,
    }
}

/// Reads an array: its header, then as many messages as the header declares.
/// Nothing comes back where the declared count is negative.
fn parse_array(buf: &[u8]) -> (r: Option<ParseResult>)
    requires
        buf@.len() >= 1,
    ensures
        r matches Some(p) ==> p@ == spec_parse_array(buf@),
        r matches Some(ParseResult::Complete(_, n)) ==> 3 <= n <= buf@.len(),
        r is None <==> spec_parse_array(buf@) is NegativeCount,
    decreases buf@.len(), 0int,
{
    let i = match find_crlf(buf, 1) {
        Some(i) => i,
        None => {
            return Some(ParseResult::Incomplete);
        },
    };
    proof {
        lemma_header_bounds(buf@, i as int);
    }
    let len = match parse_int(&buf[1..i]) {
        Some(n) => n,
        None => {
            return Some(ParseResult::Malformed);
        },
    };
    if len < 0 {
        return None;
    }
    let ghost b = buf@;
    let ghost top = spec_parse_list(b.subrange(i + 2, b.len() as int), len as nat);
    let mut cursor = i + 2;
    let mut elements: Vec<Resp> = Vec::new();
    let mut k: i64 = 0;
    proof {
        assert(resps_view(elements@) =~= Seq::<RespView>::empty());
        assert(top == prepend(Seq::empty(), 0, top)) by {
            if let ListView::Done(rs, n) = top {
                assert(Seq::<RespView>::empty() + rs =~= rs);
            }
        }
    }
    while k < len
        invariant
            b == buf@,
            3 <= i + 2 <= cursor <= b.len(),
            0 <= k <= len,
            spec_parse_array(b) == match top {
                ListView::Done(elems, m) => ParseView::Complete(
                    RespView::Array(len, elems),
                    (i + 2 + m) as nat,
                ),
                ListView::Malformed => ParseView::Malformed,
                ListView::Incomplete => ParseView::Incomplete,
                ListView::NegativeCount => ParseView::NegativeCount,
            },
            top == prepend(
                resps_view(elements@),
                (cursor - (i + 2)) as nat,
                spec_parse_list(b.subrange(cursor as int, b.len() as int), (len - k) as nat),
            ),
        decreases len - k,
    {
        let sub = &buf[cursor..buf.len()];
        let ghost rem = (len - k) as nat;
        let ghost rest = spec_parse_list(sub@, (rem - 1) as nat);
        match parse_checked(sub) {
            None => {
                return None;
            },
            Some(ParseResult::Incomplete) => {
                return Some(ParseResult::Incomplete);
            },
            Some(ParseResult::Malformed) => {
                return Some(ParseResult::Malformed);
            },
            Some(ParseResult::Complete(resp, end)) => {
                proof {
                    let tail = sub@.subrange(end as int, sub@.len() as int);
                    assert(tail =~= b.subrange(cursor + end, b.len() as int));
                    lemma_prepend_compose(
                        resps_view(elements@),
                        (cursor - (i + 2)) as nat,
                        resp@,
                        end as nat,
                        spec_parse_list(tail, (rem - 1) as nat),
                    );
                    assert(elements@.push(resp).subrange(0, elements@.len() as int) =~= elements@);
                }
                cursor = cursor + end;
                elements.push(resp);
            },
        }
        k = k + 1;
    }
    Some(ParseResult::Complete(Resp::Array(len, elements), cursor))
}

/// Reads one message from the front of `buf`, as `parse_resp_msg` does; nothing
/// comes back where an array header declares a negative element count.
pub fn parse_checked(buf: &[u8]) -> (r: Option<ParseResult>)
    ensures
        r matches Some(p) ==> p@ == spec_parse(buf@),
        r matches Some(ParseResult::Complete(_, n)) ==> 3 <= n <= buf@.len(),
        r is None <==> spec_parse(buf@) is NegativeCount,
    decreases buf@.len(), 1int,
{
    if buf.len() == 0 {
        return Some(ParseResult::Incomplete);
    }
    let tag = buf[0];
    if tag == 43 {
        Some(parse_simple_string(buf))
    } else if tag == 45 {
        Some(parse_error(buf))
    } else if tag == 58 {
        Some(parse_integer(buf))
    } else if tag == 36 {
        Some(parse_bulk_string(buf))
    } else if tag == 35 {
        Some(parse_boolean(buf))
    } else if tag == 44 {
        Some(parse_double(buf))
    } else if tag == 42 {
        parse_array(buf)
    } else {
        Some(ParseResult::Malformed)
    }
}

/// Reads one message from the front of `buf`.
pub fn parse_resp_msg(buf: &[u8]) -> (r: ParseResult)
    requires
        !(spec_parse(buf@) is NegativeCount),
    ensures
        r@ == spec_parse(buf@),
        r matches ParseResult::Complete(_, n) ==> 3 <= n <= buf@.len(),
{
    match parse_checked(buf) {
        Some(r) => r,
        None => ParseResult::Malformed,
    }
}

/// Reads one message from the front of `buf`.
pub fn parse_one(buf: &[u8]) -> (r: ParseResult)
    requires
        !(spec_parse(buf@) is NegativeCount),
    ensures
        r@ == spec_parse(buf@),
        r matches ParseResult::Complete(_, n) ==> 3 <= n <= buf@.len(),
{
    parse_resp_msg(buf)
}


// ---------------------------------------------------------------------------
// Laws of reading

proof fn lemma_first_crlf_some(b: Seq<u8>, from: int, i: int)
    requires
        first_crlf(b, from) == Some(i),
    ensures
        is_first_crlf(b, from, i),
{
    let k = choose|k: int| is_first_crlf(b, from, k);
    assert(is_first_crlf(b, from, k));
}

/// A CR LF found in some bytes is still the first one once more bytes follow.
proof fn lemma_first_crlf_extend(b: Seq<u8>, c: Seq<u8>, from: int, i: int)
    requires
        first_crlf(b, from) == Some(i),
    ensures
        first_crlf(b + c, from) == Some(i),
{
    lemma_first_crlf_some(b, from, i);
    let bc = b + c;
    assert(crlf_at(b, i));
    assert(bc[i] == b[i] && bc[i + 1] == b[i + 1]);
    assert forall|j: int| from <= j < i implies !crlf_at(bc, j) by {
        assert(!crlf_at(b, j));
        if 0 <= j {
            assert(bc[j] == b[j] && bc[j + 1] == b[j + 1]);
        }
    }
    lemma_first_crlf_unique(bc, from, i);
}

/// The length of a complete message: at least three bytes, and no more than there are.
pub proof fn lemma_parse_len(b: Seq<u8>)
    ensures
        spec_parse(b) matches ParseView::Complete(_, n) ==> 3 <= n <= b.len(),
    decreases b.len(), 1int, 0int,
{
    if b.len() > 0 {
        if b[0] == 42 {
            lemma_parse_array_len(b);
        } else if let Some(i) = first_crlf(b, 1) {
            lemma_first_crlf_some(b, 1, i);
        }
    }
}

proof fn lemma_parse_array_len(b: Seq<u8>)
    ensures
        spec_parse_array(b) matches ParseView::Complete(_, n) ==> 3 <= n <= b.len(),
    decreases b.len(), 0int, 0int,
{
    if let Some(i) = first_crlf(b, 1) {
        lemma_first_crlf_some(b, 1, i);
        if let Some(n) = parse_i64(header(b, i)) {
            if n >= 0 {
                lemma_parse_list_len(b.subrange(i + 2, b.len() as int), n as nat);
            }
        }
    }
}

proof fn lemma_parse_list_len(rest: Seq<u8>, k: nat)
    ensures
        spec_parse_list(rest, k) matches ListView::Done(_, m) ==> m <= rest.len(),
    decreases rest.len(), 2int, k,
{
    if k > 0 {
        lemma_parse_len(rest);
        if let ParseView::Complete(r, m) = spec_parse(rest) {
            lemma_parse_list_len(rest.subrange(m as int, rest.len() as int), (k - 1) as nat);
        }
    }
}

/// Reading is decided by the message alone: once some bytes read as a complete
/// message, as malformed, or as an unallocatable array, bytes appended after
/// them change nothing. In particular only the first of several pipelined
/// messages is read, with its own length.
pub proof fn lemma_parse_extend(b: Seq<u8>, c: Seq<u8>)
    requires
        !(spec_parse(b) is Incomplete),
    ensures
        spec_parse(b + c) == spec_parse(b),
    decreases b.len(), 1int, 0int,
{
    let bc = b + c;
    assert(bc[0] == b[0]);
    if b[0] == 42 {
        lemma_parse_array_extend(b, c);
    } else if b[0] == 43 || b[0] == 45 || b[0] == 58 || b[0] == 36 || b[0] == 35 || b[0] == 44 {
        let i = first_crlf(b, 1)->0;
        lemma_first_crlf_extend(b, c, 1, i);
        lemma_first_crlf_some(b, 1, i);
        assert(header(bc, i) =~= header(b, i));
        if b[0] == 36 {
            if let Some(len) = parse_i64(header(b, i)) {
                if len >= 0 {
                    let end = i + 2 + len;
                    if end + 2 <= b.len() {
                        assert(bc[end] == b[end] && bc[end + 1] == b[end + 1]);
                        assert(bc.subrange(i + 2, end) =~= b.subrange(i + 2, end));
                    }
                }
            }
        }
    }
}

proof fn lemma_parse_array_extend(b: Seq<u8>, c: Seq<u8>)
    requires
        b.len() > 0,
        !(spec_parse_array(b) is Incomplete),
    ensures
        spec_parse_array(b + c) == spec_parse_array(b),
    decreases b.len(), 0int, 0int,
{
    let bc = b + c;
    let i = first_crlf(b, 1)->0;
    lemma_first_crlf_extend(b, c, 1, i);
    lemma_first_crlf_some(b, 1, i);
    assert(header(bc, i) =~= header(b, i));
    if let Some(n) = parse_i64(header(b, i)) {
        if n >= 0 {
            let rest = b.subrange(i + 2, b.len() as int);
            assert(bc.subrange(i + 2, bc.len() as int) =~= rest + c);
            lemma_parse_list_extend(rest, c, n as nat);
        }
    }
}

proof fn lemma_parse_list_extend(rest: Seq<u8>, c: Seq<u8>, k: nat)
    requires
        !(spec_parse_list(rest, k) is Incomplete),
    ensures
        spec_parse_list(rest + c, k) == spec_parse_list(rest, k),
    decreases rest.len(), 2int, k,
{
    if k > 0 {
        lemma_parse_len(rest);
        lemma_parse_extend(rest, c);
        if let ParseView::Complete(r, m) = spec_parse(rest) {
            let tail = rest.subrange(m as int, rest.len() as int);
            assert((rest + c).subrange(m as int, (rest + c).len() as int) =~= tail + c);
            lemma_parse_list_extend(tail, c, (k - 1) as nat);
        }
    }
}

/// `b` and `c` both have at least `n` bytes, and their first `n` are the same.
pub open spec fn agree_upto(b: Seq<u8>, c: Seq<u8>, n: int) -> bool {
    &&& n <= b.len()
    &&& n <= c.len()
    &&& forall|j: int| 0 <= j < n ==> #[trigger] b[j] == c[j]
}

/// A first CR LF that lies within the bytes two sequences share is the first in both.
proof fn lemma_first_crlf_agree(b: Seq<u8>, c: Seq<u8>, from: int, i: int, n: int)
    requires
        first_crlf(b, from) == Some(i),
        i + 2 <= n,
        agree_upto(b, c, n),
    ensures
        first_crlf(c, from) == Some(i),
{
    lemma_first_crlf_some(b, from, i);
    assert(crlf_at(b, i));
    assert(c[i] == b[i] && c[i + 1] == b[i + 1]);
    assert forall|j: int| from <= j < i implies !crlf_at(c, j) by {
        assert(!crlf_at(b, j));
        if 0 <= j {
            assert(c[j] == b[j] && c[j + 1] == b[j + 1]);
        }
    }
    lemma_first_crlf_unique(c, from, i);
}

proof fn lemma_parse_agree(b: Seq<u8>, c: Seq<u8>)
    requires
        spec_parse(b) matches ParseView::Complete(_, n) && agree_upto(b, c, n as int),
    ensures
        spec_parse(c) == spec_parse(b),
    decreases b.len(), 1int, 0int,
{
    lemma_parse_len(b);
    if let ParseView::Complete(_, n) = spec_parse(b) {
        assert(c[0] == b[0]);
        if b[0] == 42 {
            lemma_parse_array_agree(b, c);
        } else {
            let i = first_crlf(b, 1)->0;
            lemma_first_crlf_some(b, 1, i);
            lemma_first_crlf_agree(b, c, 1, i, n as int);
            assert(header(c, i) =~= header(b, i));
            if b[0] == 36 {
                if let Some(len) = parse_i64(header(b, i)) {
                    if len >= 0 {
                        let end = i + 2 + len;
                        assert(c[end] == b[end] && c[end + 1] == b[end + 1]);
                        assert(c.subrange(i + 2, end) =~= b.subrange(i + 2, end));
                    }
                }
            }
        }
    }
}

proof fn lemma_parse_array_agree(b: Seq<u8>, c: Seq<u8>)
    requires
        spec_parse_array(b) matches ParseView::Complete(_, n) && agree_upto(b, c, n as int),
    ensures
        spec_parse_array(c) == spec_parse_array(b),
    decreases b.len(), 0int, 0int,
{
    if let ParseView::Complete(_, n) = spec_parse_array(b) {
        let i = first_crlf(b, 1)->0;
        lemma_first_crlf_some(b, 1, i);
        let count = parse_i64(header(b, i))->0;
        let rb = b.subrange(i + 2, b.len() as int);
        let rc = c.subrange(i + 2, c.len() as int);
        if let ListView::Done(_, m) = spec_parse_list(rb, count as nat) {
            lemma_first_crlf_agree(b, c, 1, i, n as int);
            assert(header(c, i) =~= header(b, i));
            assert forall|j: int| 0 <= j < m implies #[trigger] rb[j] == rc[j] by {
                assert(rb[j] == b[i + 2 + j]);
                assert(rc[j] == c[i + 2 + j]);
            }
            lemma_parse_list_agree(rb, rc, count as nat);
        }
    }
}

proof fn lemma_parse_list_agree(rb: Seq<u8>, rc: Seq<u8>, k: nat)
    requires
        spec_parse_list(rb, k) matches ListView::Done(_, m) && agree_upto(rb, rc, m as int),
    ensures
        spec_parse_list(rc, k) == spec_parse_list(rb, k),
    decreases rb.len(), 2int, k,
{
    if k > 0 {
        lemma_parse_len(rb);
        if let ParseView::Complete(_, m1) = spec_parse(rb) {
            let tb = rb.subrange(m1 as int, rb.len() as int);
            let tc = rc.subrange(m1 as int, rc.len() as int);
            if let ListView::Done(_, m2) = spec_parse_list(tb, (k - 1) as nat) {
                lemma_parse_agree(rb, rc);
                assert forall|j: int| 0 <= j < m2 implies #[trigger] tb[j] == tc[j] by {
                    assert(tb[j] == rb[m1 + j]);
                    assert(tc[j] == rc[m1 + j]);
                }
                lemma_parse_list_agree(tb, tc, (k - 1) as nat);
            }
        }
    }
}

/// Reading is decided by a message's own bytes: where `b` starts with a
/// complete message of `n` bytes, any bytes `c` that start with the same `n`
/// bytes read as the same message. In particular a message read from a longer
/// buffer reads the same from its own bytes alone.
pub proof fn lemma_parse_own_bytes(b: Seq<u8>, c: Seq<u8>)
    requires
        spec_parse(b) matches ParseView::Complete(_, n) && n <= c.len() && c.subrange(0, n as int)
            == b.subrange(0, n as int),
    ensures
        spec_parse(c) == spec_parse(b),
{
    lemma_parse_len(b);
    if let ParseView::Complete(_, n) = spec_parse(b) {
        assert forall|j: int| 0 <= j < n implies #[trigger] b[j] == c[j] by {
            assert(b.subrange(0, n as int)[j] == b[j]);
            assert(c.subrange(0, n as int)[j] == c[j]);
        }
        lemma_parse_agree(b, c);
    }
}

/// A message cut off before its end reads as incomplete: never as malformed,
/// nor as another message.
pub proof fn lemma_parse_cut(a: Seq<u8>, s: Seq<u8>)
    requires
        spec_parse(a + s) matches ParseView::Complete(_, n) && n > a.len(),
    ensures
        spec_parse(a) is Incomplete,
{
    if !(spec_parse(a) is Incomplete) {
        lemma_parse_extend(a, s);
        lemma_parse_len(a);
    }
}

/// A byte that can stand in a decimal number: a digit, a sign, a point or an
/// exponent mark.
pub open spec fn number_byte(b: u8) -> bool {
    is_digit(b) || b == 43 || b == 45 || b == 46 || b == 101 || b == 69
}

/// ASCII bytes are valid UTF-8.
proof fn lemma_ascii_valid_utf8(t: Seq<u8>)
    requires
        forall|j: int| 0 <= j < t.len() ==> #[trigger] t[j] < 128,
    ensures
        valid_utf8(t),
{
    assert(t.subrange(0, 0) =~= Seq::<u8>::empty());
    vstd::utf8::partial_valid_utf8_extend_ascii_block(t, 0, t.len() as int);
    assert(t.subrange(0, t.len() as int) =~= t);
}

/// Text made of an optional sign and `body`, where `body` does not itself start
/// with a sign, has `body` as its unsigned part.
proof fn lemma_unsigned_part_of(sign: Seq<u8>, body: Seq<u8>)
    requires
        sign.len() <= 1,
        sign.len() == 1 ==> sign[0] == 43 || sign[0] == 45,
        body.len() > 0,
        body[0] != 43 && body[0] != 45,
    ensures
        unsigned_part(sign + body) == body,
{
    let t = sign + body;
    if sign.len() == 1 {
        assert(t.subrange(1, t.len() as int) =~= body);
    } else {
        assert(t =~= body);
    }
}

/// Every byte of `s` can stand in a decimal number.
pub open spec fn number_bytes(s: Seq<u8>) -> bool {
    forall|j: int| 0 <= j < s.len() ==> #[trigger] number_byte(s[j])
}

proof fn lemma_number_bytes_concat(a: Seq<u8>, b: Seq<u8>)
    requires
        number_bytes(a),
        number_bytes(b),
    ensures
        number_bytes(a + b),
{
    assert forall|j: int| 0 <= j < (a + b).len() implies #[trigger] number_byte((a + b)[j]) by {
        if j < a.len() {
            assert((a + b)[j] == a[j]);
        } else {
            assert((a + b)[j] == b[j - a.len()]);
        }
    }
}

proof fn lemma_digits_number_bytes(d: Seq<u8>)
    requires
        all_digits(d),
    ensures
        number_bytes(d),
{
    assert forall|j: int| 0 <= j < d.len() implies #[trigger] number_byte(d[j]) by {
        assert(is_digit(d[j]));
    }
}

/// Digits, then optionally `.` and more digits, with at least one digit in all,
/// form a mantissa.
proof fn lemma_mantissa(ip: Seq<u8>, frac: Seq<u8>)
    requires
        all_digits(ip),
        frac.len() == 0 || (frac[0] == 46 && all_digits(frac.subrange(1, frac.len() as int))),
        ip.len() > 0 || frac.len() > 1,
    ensures
        is_mantissa(ip + frac),
        number_bytes(ip + frac),
        (ip + frac)[0] != 43 && (ip + frac)[0] != 45,
{
    let m = ip + frac;
    let f = frac.subrange(1, frac.len() as int);
    assert forall|j: int| 0 <= j < m.len() implies is_digit(m[j]) || m[j] == 46 by {
        if j < ip.len() {
            assert(is_digit(ip[j]));
        } else if j > ip.len() {
            assert(m[j] == f[j - ip.len() - 1]);
        }
    }
    assert forall|a: int, b: int| 0 <= a < b < m.len() implies !(m[a] == 46 && m[b] == 46) by {
        if b < ip.len() {
            assert(is_digit(ip[b]));
        } else if b > ip.len() {
            assert(m[b] == f[b - ip.len() - 1]);
        } else {
            assert(is_digit(ip[a]));
        }
    }
    if ip.len() > 0 {
        assert(is_digit(m[0]));
    } else {
        assert(m[1] == f[0]);
        assert(is_digit(m[1]));
    }
    assert forall|j: int| 0 <= j < m.len() implies #[trigger] number_byte(m[j]) by {
        assert(is_digit(m[j]) || m[j] == 46);
    }
}

/// An optional sign and one or more digits form an exponent.
proof fn lemma_exponent(esign: Seq<u8>, ed: Seq<u8>)
    requires
        esign.len() <= 1,
        esign.len() == 1 ==> esign[0] == 43 || esign[0] == 45,
        all_digits(ed),
    ensures
        ed.len() > 0 ==> is_exponent(esign + ed),
        number_bytes(esign + ed),
{
    if ed.len() > 0 {
        assert(is_digit(ed[0]));
        lemma_unsigned_part_of(esign, ed);
    }
    assert(number_bytes(esign));
    lemma_digits_number_bytes(ed);
    lemma_number_bytes_concat(esign, ed);
}

/// An optional sign, a mantissa, and optionally an exponent mark and an
/// exponent, are text that reading accepts as a double.
proof fn lemma_number_text(sign: Seq<u8>, m: Seq<u8>, mark: Seq<u8>, e: Seq<u8>)
    requires
        sign.len() <= 1,
        sign.len() == 1 ==> sign[0] == 43 || sign[0] == 45,
        is_mantissa(m),
        m[0] != 43 && m[0] != 45,
        mark.len() <= 1,
        mark.len() == 1 ==> (mark[0] == 101 || mark[0] == 69) && is_exponent(e),
        mark.len() == 0 ==> e.len() == 0,
    ensures
        is_float_text(sign + (m + mark + e)),
{
    let body = m + mark + e;
    let k = m.len() as int;
    assert(body[0] == m[0]);
    lemma_unsigned_part_of(sign, body);
    if mark.len() == 0 {
        assert(body =~= m);
    } else {
        assert(body[k] == mark[0]);
        assert(body.subrange(0, k) =~= m);
        assert(body.subrange(k + 1, body.len() as int) =~= e);
        assert(is_exp_mark(body[k]) && is_mantissa(body.subrange(0, k)) && is_exponent(
            body.subrange(k + 1, body.len() as int),
        ));
    }
}

/// Decimal numbers read as doubles: `,`, then an optional sign, digits,
/// optionally `.` and more digits (at least one digit in all), optionally `e`
/// or `E` with an optional sign and one or more digits, then CR LF, reads as a
/// complete double that holds exactly that text, whatever bytes follow.
pub proof fn lemma_decimal_reads_as_double(
    sign: Seq<u8>,
    ip: Seq<u8>,
    frac: Seq<u8>,
    mark: Seq<u8>,
    esign: Seq<u8>,
    ed: Seq<u8>,
    rest: Seq<u8>,
)
    requires
        sign.len() <= 1,
        sign.len() == 1 ==> sign[0] == 43 || sign[0] == 45,
        all_digits(ip),
        frac.len() == 0 || (frac[0] == 46 && all_digits(frac.subrange(1, frac.len() as int))),
        ip.len() > 0 || frac.len() > 1,
        mark.len() <= 1,
        mark.len() == 1 ==> (mark[0] == 101 || mark[0] == 69) && ed.len() > 0,
        mark.len() == 0 ==> esign.len() == 0 && ed.len() == 0,
        esign.len() <= 1,
        esign.len() == 1 ==> esign[0] == 43 || esign[0] == 45,
        all_digits(ed),
    ensures
        ({
            let t = sign + ip + frac + mark + esign + ed;
            spec_parse(seq![44u8] + t + crlf() + rest) matches ParseView::Complete(
                RespView::Double(text),
                n,
            ) && encode_utf8(text) == t && n == t.len() + 3
        }),
{
    let m = ip + frac;
    let e = esign + ed;
    let t = sign + ip + frac + mark + esign + ed;
    lemma_mantissa(ip, frac);
    lemma_exponent(esign, ed);
    lemma_number_text(sign, m, mark, e);
    assert(t =~= sign + (m + mark + e));
    assert(number_bytes(sign));
    assert(number_bytes(mark));
    lemma_number_bytes_concat(m, mark);
    lemma_number_bytes_concat(m + mark, e);
    lemma_number_bytes_concat(sign, m + mark + e);
    assert forall|j: int| 0 <= j < t.len() implies #[trigger] t[j] != 13 && t[j] < 128 by {
        assert(number_byte(t[j]));
    }
    lemma_double_text_reads(t, rest);
}

/// The words `inf`, `infinity` and `nan`, each letter in either case, after an
/// optional sign, read as doubles holding exactly that text, whatever follows.
pub proof fn lemma_special_reads_as_double(sign: Seq<u8>, w: Seq<u8>, word: Seq<u8>, rest: Seq<u8>)
    requires
        sign.len() <= 1,
        sign.len() == 1 ==> sign[0] == 43 || sign[0] == 45,
        word == seq![105u8, 110, 102] || word == seq![105u8, 110, 102, 105, 110, 105, 116, 121]
            || word == seq![110u8, 97, 110],
        w.len() == word.len(),
        forall|i: int| 0 <= i < w.len() ==> #[trigger] w[i] == word[i] || w[i] + 32 == word[i],
    ensures
        ({
            let t = sign + w;
            spec_parse(seq![44u8] + t + crlf() + rest) matches ParseView::Complete(
                RespView::Double(text),
                n,
            ) && encode_utf8(text) == t && n == t.len() + 3
        }),
{
    let t = sign + w;
    assert forall|i: int| 0 <= i < w.len() implies ascii_lower(w[i]) == word[i] && 65 <= w[i]
        < 128 by {
        assert(97 <= word[i] <= 121);
    }
    assert(spells(w, word));
    assert(w[0] != 43 && w[0] != 45);
    lemma_unsigned_part_of(sign, w);
    assert(is_float_text(t));
    assert forall|j: int| 0 <= j < t.len() implies #[trigger] t[j] != 13 && t[j] < 128 by {
        if j >= sign.len() {
            assert(t[j] == w[j - sign.len()]);
        }
    }
    lemma_double_text_reads(t, rest);
}

/// ASCII text without CR that reading accepts as a double reads back as that text.
proof fn lemma_double_text_reads(t: Seq<u8>, rest: Seq<u8>)
    requires
        forall|j: int| 0 <= j < t.len() ==> #[trigger] t[j] != 13 && t[j] < 128,
        is_float_text(t),
    ensures
        spec_parse(seq![44u8] + t + crlf() + rest) matches ParseView::Complete(
            RespView::Double(text),
            n,
        ) && encode_utf8(text) == t && n == t.len() + 3,
{
    broadcast use vstd::utf8::decode_utf8_encode_utf8;

    lemma_no_cr_no_crlf(t);
    lemma_ascii_valid_utf8(t);
    let b = seq![44u8] + t + crlf() + rest;
    lemma_crlf_after(seq![44u8], t, rest);
    assert(header(b, 1 + t.len() as int) =~= t);
    assert(b[0] == 44);
}

// ---------------------------------------------------------------------------
// Writing

/// CR LF.
pub open spec fn crlf() -> Seq<u8> {
    seq![13u8, 10u8]
}

/// The decimal digits of `n`, most significant first, without leading zeros.
pub open spec fn decimal(n: nat) -> Seq<u8>
    decreases n,
{
    if n < 10 {
        seq![(48 + n) as u8]
    } else {
        decimal(n / 10).push((48 + n % 10) as u8)
    }
}

/// `i` in decimal, with a leading `-` when negative.
pub open spec fn int_text(i: int) -> Seq<u8> {
    if i < 0 {
        seq![45u8] + decimal((0 - i) as nat)
    } else {
        decimal(i as nat)
    }
}

/// The bytes that encode a RESP value.
pub open spec fn serialize_spec(r: RespView) -> Seq<u8>
    decreases r,
{
    match r {
        RespView::String(s) => seq![43u8] + encode_utf8(s) + crlf(),
        RespView::Error(s) => seq![45u8] + encode_utf8(s) + crlf(),
        RespView::Integer(n) => seq![58u8] + int_text(n as int) + crlf(),
        RespView::BulkString(n, s) => seq![36u8] + int_text(n as int) + crlf() + encode_utf8(s)
            + crlf(),
        RespView::NullBulkString => seq![36u8, 45u8, 49u8] + crlf(),
        RespView::Array(n, elems) => seq![42u8] + int_text(n as int) + crlf() + serialize_list(
            elems,
        ),
        RespView::Boolean(b) => seq![35u8, if b { 116u8 } else { 102u8 }] + crlf(),
        RespView::Double(s) => seq![44u8] + encode_utf8(s) + crlf(),
    }
}

/// The encodings of some values, one after another.
pub open spec fn serialize_list(elems: Seq<RespView>) -> Seq<u8>
    decreases elems,
{
    if elems.len() == 0 {
        Seq::empty()
    } else {
        serialize_list(elems.subrange(0, elems.len() - 1)) + serialize_spec(
            elems[elems.len() - 1],
        )
    }
}

pub(crate) proof fn lemma_resps_view_index(s: Seq<Resp>)
    ensures
        resps_view(s).len() == s.len(),
        forall|i: int| 0 <= i < s.len() ==> #[trigger] resps_view(s)[i] == resp_view(s[i]),
    decreases s.len(),
{
    if s.len() > 0 {
        lemma_resps_view_index(s.subrange(0, s.len() - 1));
    }
}

// ---------------------------------------------------------------------------
// Laws of writing

/// No CR LF pair among the bytes.
pub open spec fn no_crlf(s: Seq<u8>) -> bool {
    forall|j: int| 0 <= j && j + 1 < s.len() ==> !(#[trigger] s[j] == 13 && s[j + 1] == 10)
}

/// A value that reads back as it was written: simple strings, errors and
/// doubles whose text holds no CR LF (a double's text being one that reading
/// accepts), bulk strings whose declared length is their payload's, and arrays
/// whose declared count is their number of elements, each of them such a value.
pub open spec fn writable(r: RespView) -> bool
    decreases r,
{
    match r {
        RespView::String(s) => no_crlf(encode_utf8(s)),
        RespView::Error(s) => no_crlf(encode_utf8(s)),
        RespView::BulkString(n, s) => n == encode_utf8(s).len(),
        RespView::Array(n, elems) => n == elems.len() && forall|i: int|
            0 <= i < elems.len() ==> writable(#[trigger] elems[i]),
        RespView::Double(s) => is_float_text(encode_utf8(s)),
        _ => true,
    }
}

proof fn lemma_decimal(n: nat)
    ensures
        decimal(n).len() > 0,
        all_digits(decimal(n)),
        digits_value(decimal(n)) == n,
    decreases n,
{
    let d = decimal(n);
    if n >= 10 {
        lemma_decimal(n / 10);
        assert(d.drop_last() =~= decimal(n / 10));
        assert(d.last() == (48 + n % 10) as u8);
        assert(d.last() - 48 == n % 10);
        vstd::arithmetic::div_mod::lemma_fundamental_div_mod(n as int, 10);
        assert(digits_value(d) == digits_value(decimal(n / 10)) * 10 + n % 10);
    } else {
        assert(d.drop_last() =~= Seq::<u8>::empty());
        assert(digits_value(d.drop_last()) == 0);
        assert(d.last() - 48 == n);
        assert(digits_value(d) == digits_value(d.drop_last()) * 10 + (d.last() - 48) as nat);
    }
}

/// An integer's text reads back as the integer, and holds no CR.
proof fn lemma_int_text(i: i64)
    ensures
        parse_i64(int_text(i as int)) == Some(i),
        int_text(i as int).len() > 0,
        forall|j: int| 0 <= j < int_text(i as int).len() ==> #[trigger] int_text(i as int)[j] != 13,
{
    let t = int_text(i as int);
    if i < 0 {
        let m = (0 - i) as nat;
        lemma_decimal(m);
        assert(unsigned_part(t) =~= decimal(m));
        assert forall|j: int| 0 <= j < t.len() implies #[trigger] t[j] != 13 by {
            if j > 0 {
                assert(t[j] == decimal(m)[j - 1]);
                assert(is_digit(decimal(m)[j - 1]));
            }
        }
    } else {
        lemma_decimal(i as nat);
        assert(is_digit(t[0]));
        assert forall|j: int| 0 <= j < t.len() implies #[trigger] t[j] != 13 by {
            assert(is_digit(t[j]));
        }
    }
}

/// Text that reading accepts as a double holds no CR.
proof fn lemma_float_text_no_cr(s: Seq<u8>)
    requires
        is_float_text(s),
    ensures
        forall|j: int| 0 <= j < s.len() ==> #[trigger] s[j] != 13,
{
    let body = unsigned_part(s);
    let off: int = if s.len() > 0 && (s[0] == 43 || s[0] == 45) { 1 } else { 0 };
    assert forall|j: int| 0 <= j < s.len() implies #[trigger] s[j] != 13 by {
        if j >= off {
            let t = j - off;
            assert(body[t] == s[j]);
            if spells(body, seq![105u8, 110, 102]) || spells(
                body,
                seq![105u8, 110, 102, 105, 110, 105, 116, 121],
            ) || spells(body, seq![110u8, 97, 110]) {
                assert(ascii_lower(body[t]) >= 97);
            } else if is_mantissa(body) {
                assert(is_digit(body[t]) || body[t] == 46);
            } else {
                let k = choose|k: int|
                    0 <= k < body.len() && is_exp_mark(body[k]) && is_mantissa(body.subrange(0, k))
                        && is_exponent(body.subrange(k + 1, body.len() as int));
                if t < k {
                    assert(body.subrange(0, k)[t] == body[t]);
                } else if t > k {
                    let e = body.subrange(k + 1, body.len() as int);
                    assert(e[t - k - 1] == body[t]);
                    if !(e[0] == 43 || e[0] == 45) || t - k - 1 > 0 {
                        let u = unsigned_part(e);
                        let eoff: int = if e[0] == 43 || e[0] == 45 { 1 } else { 0 };
                        assert(u[t - k - 1 - eoff] == e[t - k - 1]);
                        assert(is_digit(u[t - k - 1 - eoff]));
                    }
                }
            }
        }
    }
}

/// Where bytes without CR LF follow a head and precede a CR LF, that CR LF is
/// the first one after the head.
proof fn lemma_crlf_after(head: Seq<u8>, body: Seq<u8>, rest: Seq<u8>)
    requires
        no_crlf(body),
    ensures
        first_crlf(head + body + crlf() + rest, head.len() as int) == Some(
            (head.len() + body.len()) as int,
        ),
{
    let b = head + body + crlf() + rest;
    let h = head.len() as int;
    let e = (head.len() + body.len()) as int;
    assert(b[e] == 13 && b[e + 1] == 10);
    assert forall|j: int| h <= j < e implies !crlf_at(b, j) by {
        assert(b[j] == body[j - h]);
        if j + 1 < e {
            assert(b[j + 1] == body[j + 1 - h]);
        } else {
            assert(b[j + 1] == 13);
        }
    }
    lemma_first_crlf_unique(b, h, e);
}

proof fn lemma_no_cr_no_crlf(s: Seq<u8>)
    requires
        forall|j: int| 0 <= j < s.len() ==> #[trigger] s[j] != 13,
    ensures
        no_crlf(s),
{
}

/// The encodings of some values are the first one's followed by the rest's.
proof fn lemma_serialize_list_front(elems: Seq<RespView>)
    requires
        elems.len() > 0,
    ensures
        serialize_list(elems) == serialize_spec(elems[0]) + serialize_list(
            elems.subrange(1, elems.len() as int),
        ),
    decreases elems.len(),
{
    let n = elems.len() as int;
    let init = elems.subrange(0, n - 1);
    let tail = elems.subrange(1, n);
    if n == 1 {
        assert(init =~= Seq::<RespView>::empty());
        assert(tail =~= Seq::<RespView>::empty());
        assert(serialize_list(elems) =~= serialize_spec(elems[0]) + serialize_list(tail));
    } else {
        lemma_serialize_list_front(init);
        assert(init.subrange(1, n - 1) =~= tail.subrange(0, n - 2));
        assert(tail[n - 2] == elems[n - 1]);
        assert(serialize_list(elems) =~= serialize_spec(elems[0]) + serialize_list(tail));
    }
}

proof fn lemma_read_string(s: Seq<char>, c: Seq<u8>)
    requires
        no_crlf(encode_utf8(s)),
    ensures
        spec_parse(serialize_spec(RespView::String(s)) + c) == ParseView::Complete(
            RespView::String(s),
            serialize_spec(RespView::String(s)).len(),
        ),
{
    broadcast use {vstd::utf8::encode_utf8_valid_utf8, vstd::utf8::encode_utf8_decode_utf8};

    let b = serialize_spec(RespView::String(s)) + c;
    let head = seq![43u8];
    let body = encode_utf8(s);
    assert(b =~= head + body + crlf() + c);
    lemma_crlf_after(head, body, c);
    assert(header(b, 1 + body.len() as int) =~= body);
}

proof fn lemma_read_error(s: Seq<char>, c: Seq<u8>)
    requires
        no_crlf(encode_utf8(s)),
    ensures
        spec_parse(serialize_spec(RespView::Error(s)) + c) == ParseView::Complete(
            RespView::Error(s),
            serialize_spec(RespView::Error(s)).len(),
        ),
{
    broadcast use {vstd::utf8::encode_utf8_valid_utf8, vstd::utf8::encode_utf8_decode_utf8};

    let b = serialize_spec(RespView::Error(s)) + c;
    let head = seq![45u8];
    let body = encode_utf8(s);
    assert(b =~= head + body + crlf() + c);
    lemma_crlf_after(head, body, c);
    assert(header(b, 1 + body.len() as int) =~= body);
}

proof fn lemma_read_double(s: Seq<char>, c: Seq<u8>)
    requires
        is_float_text(encode_utf8(s)),
    ensures
        spec_parse(serialize_spec(RespView::Double(s)) + c) == ParseView::Complete(
            RespView::Double(s),
            serialize_spec(RespView::Double(s)).len(),
        ),
{
    broadcast use {vstd::utf8::encode_utf8_valid_utf8, vstd::utf8::encode_utf8_decode_utf8};

    let b = serialize_spec(RespView::Double(s)) + c;
    let head = seq![44u8];
    let body = encode_utf8(s);
    lemma_float_text_no_cr(body);
    lemma_no_cr_no_crlf(body);
    assert(b =~= head + body + crlf() + c);
    lemma_crlf_after(head, body, c);
    assert(header(b, 1 + body.len() as int) =~= body);
}

proof fn lemma_read_integer(n: i64, c: Seq<u8>)
    ensures
        spec_parse(serialize_spec(RespView::Integer(n)) + c) == ParseView::Complete(
            RespView::Integer(n),
            serialize_spec(RespView::Integer(n)).len(),
        ),
{
    let b = serialize_spec(RespView::Integer(n)) + c;
    let head = seq![58u8];
    let body = int_text(n as int);
    lemma_int_text(n);
    lemma_no_cr_no_crlf(body);
    assert(b =~= head + body + crlf() + c);
    lemma_crlf_after(head, body, c);
    assert(header(b, 1 + body.len() as int) =~= body);
}

proof fn lemma_read_bulk(n: i64, s: Seq<char>, c: Seq<u8>)
    requires
        n == encode_utf8(s).len(),
    ensures
        spec_parse(serialize_spec(RespView::BulkString(n, s)) + c) == ParseView::Complete(
            RespView::BulkString(n, s),
            serialize_spec(RespView::BulkString(n, s)).len(),
        ),
{
    broadcast use {vstd::utf8::encode_utf8_valid_utf8, vstd::utf8::encode_utf8_decode_utf8};

    let b = serialize_spec(RespView::BulkString(n, s)) + c;
    let head = seq![36u8];
    let body = int_text(n as int);
    let payload = encode_utf8(s);
    lemma_int_text(n);
    lemma_no_cr_no_crlf(body);
    let i = 1 + body.len() as int;
    assert(b =~= head + body + crlf() + (payload + crlf() + c));
    lemma_crlf_after(head, body, payload + crlf() + c);
    assert(header(b, i) =~= body);
    assert(b[i + 2 + n] == 13 && b[i + 2 + n + 1] == 10);
    assert(b.subrange(i + 2, i + 2 + n) =~= payload);
}

proof fn lemma_read_null(c: Seq<u8>)
    ensures
        spec_parse(serialize_spec(RespView::NullBulkString) + c) == ParseView::Complete(
            RespView::NullBulkString,
            serialize_spec(RespView::NullBulkString).len(),
        ),
{
    let b = serialize_spec(RespView::NullBulkString) + c;
    let head = seq![36u8];
    let body = int_text(-1int);
    lemma_int_text(-1i64);
    assert(decimal(1) =~= seq![49u8]);
    lemma_no_cr_no_crlf(body);
    assert(b =~= head + body + crlf() + c);
    lemma_crlf_after(head, body, c);
    assert(header(b, 3) =~= body);
}

proof fn lemma_read_boolean(v: bool, c: Seq<u8>)
    ensures
        spec_parse(serialize_spec(RespView::Boolean(v)) + c) == ParseView::Complete(
            RespView::Boolean(v),
            serialize_spec(RespView::Boolean(v)).len(),
        ),
{
    let b = serialize_spec(RespView::Boolean(v)) + c;
    let head = seq![35u8];
    let body = if v { seq![116u8] } else { seq![102u8] };
    assert(b =~= head + body + crlf() + c);
    lemma_crlf_after(head, body, c);
    assert(header(b, 2) =~= body);
}

/// Writing a value that reads back as written (see `writable`) and reading
/// the bytes gives the value again, with the length of its encoding, whatever
/// bytes follow it.
pub proof fn lemma_read_what_was_written(r: RespView, c: Seq<u8>)
    requires
        writable(r),
    ensures
        spec_parse(serialize_spec(r) + c) == ParseView::Complete(r, serialize_spec(r).len()),
    decreases r,
{
    match r {
        RespView::String(s) => lemma_read_string(s, c),
        RespView::Error(s) => lemma_read_error(s, c),
        RespView::Integer(n) => lemma_read_integer(n, c),
        RespView::BulkString(n, s) => lemma_read_bulk(n, s, c),
        RespView::NullBulkString => lemma_read_null(c),
        RespView::Array(n, elems) => {
            let b = serialize_spec(r) + c;
            let head = seq![42u8];
            let body = int_text(n as int);
            lemma_int_text(n);
            lemma_no_cr_no_crlf(body);
            let i = 1 + body.len() as int;
            let items = serialize_list(elems);
            assert(b =~= head + body + crlf() + (items + c));
            lemma_crlf_after(head, body, items + c);
            assert(header(b, i) =~= body);
            assert(b.subrange(i + 2, b.len() as int) =~= items + c);
            lemma_read_list(elems, c);
        },
        RespView::Boolean(v) => lemma_read_boolean(v, c),
        RespView::Double(s) => lemma_read_double(s, c),
    }
}

/// Reading as many values as were written one after another gives them back.
proof fn lemma_read_list(elems: Seq<RespView>, c: Seq<u8>)
    requires
        forall|i: int| 0 <= i < elems.len() ==> writable(#[trigger] elems[i]),
    ensures
        spec_parse_list(serialize_list(elems) + c, elems.len()) == ListView::Done(
            elems,
            serialize_list(elems).len(),
        ),
    decreases elems,
{
    if elems.len() == 0 {
        assert(elems =~= Seq::<RespView>::empty());
    } else {
        let n = elems.len() as int;
        let tail = elems.subrange(1, n);
        lemma_serialize_list_front(elems);
        let first = serialize_spec(elems[0]);
        let rest_bytes = serialize_list(tail) + c;
        let all = serialize_list(elems) + c;
        assert(all =~= first + rest_bytes);
        assert(writable(elems[0]));
        lemma_read_what_was_written(elems[0], rest_bytes);
        assert(all.subrange(first.len() as int, all.len() as int) =~= rest_bytes);
        assert forall|i: int| 0 <= i < tail.len() implies writable(#[trigger] tail[i]) by {
            assert(tail[i] == elems[i + 1]);
        }
        lemma_read_list(tail, c);
        assert(seq![elems[0]] + tail =~= elems);
    }
}

fn push_bytes(out: &mut Vec<u8>, bytes: &[u8])
    ensures
        final(out)@ == old(out)@ + bytes@,
{
    let mut i: usize = 0;
    while i < bytes.len()
        invariant
            i <= bytes@.len(),
            out@ == old(out)@ + bytes@.subrange(0, i as int),
        decreases bytes@.len() - i,
    {
        out.push(bytes[i]);
        i = i + 1;
        proof {
            assert(out@ =~= old(out)@ + bytes@.subrange(0, i as int));
        }
    }
    proof {
        assert(bytes@.subrange(0, bytes@.len() as int) =~= bytes@);
    }
}

fn push_crlf(out: &mut Vec<u8>)
    ensures
        final(out)@ == old(out)@ + crlf(),
{
    out.push(13);
    out.push(10);
    proof {
        assert(out@ =~= old(out)@ + crlf());
    }
}

fn push_text(out: &mut Vec<u8>, s: &std::string::String)
    ensures
        final(out)@ == old(out)@ + encode_utf8(s@),
{
    push_bytes(out, s.as_str().as_bytes());
}

fn push_decimal(out: &mut Vec<u8>, n: u64)
    ensures
        final(out)@ == old(out)@ + decimal(n as nat),
    decreases n,
{
    if n >= 10 {
        push_decimal(out, n / 10);
    }
    out.push(48 + (n % 10) as u8);
    proof {
        if n >= 10 {
            assert(out@ =~= old(out)@ + decimal(n as nat));
        } else {
            assert(out@ =~= old(out)@ + decimal(n as nat));
        }
    }
}

fn push_int(out: &mut Vec<u8>, i: i64)
    ensures
        final(out)@ == old(out)@ + int_text(i as int),
{
    if i < 0 {
        out.push(45);
        let magnitude: u64 = if i == i64::MIN {
            0x8000_0000_0000_0000
        } else {
            (0 - i) as u64
        };
        push_decimal(out, magnitude);
        proof {
            assert(out@ =~= old(out)@ + int_text(i as int));
        }
    } else {
        push_decimal(out, i as u64);
    }
}

impl Resp {
    /// Appends the value's encoding to `out`.
    pub fn serialize(&self, out: &mut Vec<u8>)
        ensures
            final(out)@ == old(out)@ + serialize_spec(self@),
        decreases self@,
    {
        match self {
            Resp::String(s) => {
                out.push(43);
                push_text(out, s);
                push_crlf(out);
            },
            Resp::Error(s) => {
                out.push(45);
                push_text(out, s);
                push_crlf(out);
            },
            Resp::Integer(n) => {
                out.push(58);
                push_int(out, *n);
                push_crlf(out);
            },
            Resp::BulkString(n, s) => {
                out.push(36);
                push_int(out, *n);
                push_crlf(out);
                push_text(out, s);
                push_crlf(out);
            },
            Resp::NullBulkString => {
                out.push(36);
                out.push(45);
                out.push(49);
                push_crlf(out);
            },
            Resp::Array(n, elems) => {
                out.push(42);
                push_int(out, *n);
                push_crlf(out);
                let ghost head = out@;
                let ghost views = resps_view(elems@);
                proof {
                    lemma_resps_view_index(elems@);
                    assert(views.subrange(0, 0) =~= Seq::<RespView>::empty());
                    assert(out@ =~= head + serialize_list(views.subrange(0, 0)));
                }
                let mut i: usize = 0;
                while i < elems.len()
                    invariant
                        *self == Resp::Array(*n, *elems),
                        i <= elems@.len(),
                        views == resps_view(elems@),
                        views.len() == elems@.len(),
                        forall|j: int| 0 <= j < elems@.len() ==> #[trigger] views[j] == resp_view(elems@[j]),
                        out@ == head + serialize_list(views.subrange(0, i as int)),
                    decreases elems@.len() - i,
                {
                    proof {
                        assert(self@ == RespView::Array(*n, views));
                        assert(self@->Array_1 == views);
                        assert(decreases_to!(self@ => self@->Array_1));
                        assert(decreases_to!(views => views[i as int]));
                        assert(decreases_to!(self@ => views[i as int]));
                    }
                    elems[i].serialize(out);
                    proof {
                        assert(views.subrange(0, i + 1).subrange(0, i as int) =~= views.subrange(0, i as int));
                    }
                    i = i + 1;
                    proof {
                        assert(out@ =~= head + serialize_list(views.subrange(0, i as int)));
                    }
                }
                proof {
                    assert(views.subrange(0, elems@.len() as int) =~= views);
                    assert(out@ =~= old(out)@ + serialize_spec(self@));
                }
            },
            Resp::Boolean(b) => {
                out.push(35);
                if *b {
                    out.push(116);
                } else {
                    out.push(102);
                }
                push_crlf(out);
            },
            Resp::Double(s) => {
                out.push(44);
                push_text(out, s);
                push_crlf(out);
            },
        }
        proof {
            assert(out@ =~= old(out)@ + serialize_spec(self@));
        }
    }
}

} // verus!
