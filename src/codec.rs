//! Pure conversions from raw column bytes to semantic values.
use vstd::prelude::*;

verus! {

/// Seconds between 1601-01-01 (the FILETIME epoch) and 1970-01-01 (the Unix epoch).
pub const UNIX_EPOCH_SECONDS_SINCE_WINDOWS_EPOCH: i64 = 11644473600;

/// FILETIME ticks (100 ns each) in one second.
pub const TICKS_PER_SECOND: u64 = 10000000;

/// A UTC instant: whole seconds since the Unix epoch plus a sub-second part.
#[derive(Clone, Copy, Debug, PartialEq, Eq, Structural)]
pub struct UtcDateTime {
    pub secs: i64,
    pub nanos: u32,
}

impl UtcDateTime {
    pub open spec fn wf(&self) -> bool {
        self.nanos < 1_000_000_000
    }
}

/// The instant that a FILETIME tick count denotes.
pub open spec fn filetime_instant(filetime: u64) -> UtcDateTime {
    UtcDateTime {
        secs: (filetime / 10_000_000 - 11644473600) as i64,
        nanos: ((filetime % 10_000_000) * 100) as u32,
    }
}

/// Whether an instant can be written as a FILETIME tick count.
pub open spec fn filetime_representable(t: UtcDateTime) -> bool {
    &&& t.secs >= -11644473600
    &&& (t.secs + 11644473600) * 10_000_000 + t.nanos / 100 <= u64::MAX
}

/// The FILETIME tick count of an instant, truncated to 100 ns.
pub open spec fn filetime_ticks(t: UtcDateTime) -> int {
    (t.secs + 11644473600) * 10_000_000 + t.nanos / 100
}

/// Converts a FILETIME (100 ns ticks since 1601-01-01 UTC) to a UTC instant.
pub fn get_date_time_from_filetime(filetime: u64) -> (r: UtcDateTime)
    ensures
        r == filetime_instant(filetime),
        r.wf(),
{
    let whole: u64 = filetime / TICKS_PER_SECOND;
    let frac: u64 = filetime % TICKS_PER_SECOND;
    let secs: i64 = (whole as i64) - UNIX_EPOCH_SECONDS_SINCE_WINDOWS_EPOCH;
    UtcDateTime { secs, nanos: (frac * 100) as u32 }
}

/// Converts a UTC instant to a FILETIME, or `None` when the instant lies
/// before 1601-01-01 or beyond the 64-bit tick range.
pub fn filetime_from_date_time(t: &UtcDateTime) -> (r: Option<u64>)
    requires
        t.wf(),
    ensures
        r is Some <==> filetime_representable(*t),
        r matches Some(ft) ==> ft == filetime_ticks(*t),
{
    if t.secs < -UNIX_EPOCH_SECONDS_SINCE_WINDOWS_EPOCH {
        return None;
    }
    let since_1601: u64 = (t.secs as i128 + UNIX_EPOCH_SECONDS_SINCE_WINDOWS_EPOCH as i128) as u64;
    let ticks: u64 = (t.nanos / 100) as u64;
    if since_1601 > (u64::MAX - ticks) / TICKS_PER_SECOND {
        proof {
            let y: int = u64::MAX - ticks;
            assert(since_1601 * 10_000_000 > y) by (nonlinear_arith)
                requires since_1601 > y / 10_000_000, y >= 0;
        }
        return None;
    }
    proof {
        assert(since_1601 * 10_000_000 <= u64::MAX - ticks) by (nonlinear_arith)
            requires since_1601 <= (u64::MAX - ticks) / 10_000_000;
    }
    Some(since_1601 * TICKS_PER_SECOND + ticks)
}

/// Decoding a FILETIME written from an instant at 100 ns granularity gives
/// back that same instant.
pub proof fn lemma_filetime_round_trip(t: UtcDateTime)
    requires
        t.wf(),
        t.nanos % 100 == 0,
        filetime_representable(t),
    ensures
        filetime_instant(filetime_ticks(t) as u64) == t,
{
    let s = t.secs + 11644473600;
    let q = t.nanos / 100;
    let ft = filetime_ticks(t);
    assert(ft == s * 10_000_000 + q);
    assert(0 <= q < 10_000_000);
    assert(ft / 10_000_000 == s && ft % 10_000_000 == q) by (nonlinear_arith)
        requires ft == s * 10_000_000 + q, 0 <= q < 10_000_000, s >= 0;
    assert(q * 100 == t.nanos);
}


/// Why a stored value could not be read as the requested type.
#[derive(Clone, Debug, PartialEq, Eq)]
pub enum FieldError {
    /// The value does not have the width that its column type fixes.
    WidthMismatch { expected: usize, found: usize },
    /// The column's width is not one of 1, 2, 4 or 8 bytes.
    UnsupportedWidth(usize),
    /// The bytes are not valid UTF-16LE text.
    InvalidText,
    /// The stored value has another type than the one requested.
    TypeMismatch,
    /// The stored calendar fields do not name an instant.
    InvalidDate,
}

/// 256 to the power `n`: the number of values that `n` bytes can hold.
pub open spec fn byte_span(n: nat) -> nat
    decreases n,
{
    if n == 0 {
        1
    } else {
        256 * byte_span((n - 1) as nat)
    }
}

/// The unsigned value of little-endian bytes.
pub open spec fn le_value(b: Seq<u8>) -> nat
    decreases b.len(),
{
    if b.len() == 0 {
        0
    } else {
        b[0] as nat + 256 * le_value(b.drop_first())
    }
}

/// The two's-complement value of little-endian bytes.
pub open spec fn signed_le_value(b: Seq<u8>) -> int {
    let u = le_value(b);
    if 2 * u >= byte_span(b.len()) {
        u - byte_span(b.len())
    } else {
        u as int
    }
}

/// The widths that a fixed-size integer column can have.
pub open spec fn is_int_width(w: int) -> bool {
    w == 1 || w == 2 || w == 4 || w == 8
}

pub proof fn lemma_le_value_bound(b: Seq<u8>)
    ensures
        le_value(b) < byte_span(b.len()),
    decreases b.len(),
{
    if b.len() > 0 {
        lemma_le_value_bound(b.drop_first());
    }
}

proof fn lemma_byte_spans()
    ensures
        byte_span(1) == 0x100,
        byte_span(2) == 0x1_0000,
        byte_span(4) == 0x1_0000_0000,
        byte_span(8) == 0x1_0000_0000_0000_0000,
{
    reveal_with_fuel(byte_span, 9);
}

/// The unsigned little-endian value of up to eight bytes.
pub fn le_u64(b: &[u8]) -> (r: u64)
    requires
        b@.len() <= 8,
    ensures
        r == le_value(b@),
{
    let mut acc: u64 = 0;
    let mut i: usize = b.len();
    proof {
        assert(b@.subrange(i as int, i as int) =~= Seq::<u8>::empty());
    }
    while i > 0
        invariant
            i <= b@.len() <= 8,
            acc == le_value(b@.subrange(i as int, b@.len() as int)),
        decreases i,
    {
        let ghost tail = b@.subrange(i as int, b@.len() as int);
        proof {
            lemma_le_value_bound(tail);
            lemma_byte_spans_le(tail.len());
        }
        i = i - 1;
        proof {
            let s = b@.subrange(i as int, b@.len() as int);
            assert(s.drop_first() =~= tail);
        }
        acc = b[i] as u64 + 256 * acc;
    }
    proof {
        assert(b@.subrange(0, b@.len() as int) =~= b@);
    }
    acc
}

proof fn lemma_byte_spans_le(n: nat)
    requires
        n < 8,
    ensures
        256 * byte_span(n) <= 0x1_0000_0000_0000_0000,
{
    reveal_with_fuel(byte_span, 9);
}

/// What reading a signed little-endian integer of width `width` from `b` gives.
pub open spec fn le_int_result(b: Seq<u8>, width: usize) -> Result<i64, FieldError> {
    if !is_int_width(width as int) {
        Err(FieldError::UnsupportedWidth(width))
    } else if b.len() != width {
        Err(FieldError::WidthMismatch { expected: width, found: b.len() as usize })
    } else {
        Ok(signed_le_value(b) as i64)
    }
}

/// Reads a signed little-endian integer of a fixed width (1, 2, 4 or 8 bytes);
/// the value must be exactly that wide.
pub fn decode_le_int(b: &[u8], width: usize) -> (r: Result<i64, FieldError>)
    ensures
        r is Ok <==> (is_int_width(width as int) && b@.len() == width),
        r matches Ok(v) ==> v == signed_le_value(b@),
        !is_int_width(width as int) ==> r == Err::<i64, FieldError>(
            FieldError::UnsupportedWidth(width),
        ),
        is_int_width(width as int) && b@.len() != width ==> r == Err::<i64, FieldError>(
            FieldError::WidthMismatch { expected: width, found: b@.len() as usize },
        ),
        r == le_int_result(b@, width),
{
    if !(width == 1 || width == 2 || width == 4 || width == 8) {
        return Err(FieldError::UnsupportedWidth(width));
    }
    if b.len() != width {
        return Err(FieldError::WidthMismatch { expected: width, found: b.len() });
    }
    let u = le_u64(b);
    proof {
        lemma_le_value_bound(b@);
        lemma_byte_spans();
    }
    if width == 8 {
        if u >= 0x8000_0000_0000_0000 {
            Ok(((u - 0x8000_0000_0000_0000) as i64) + i64::MIN)
        } else {
            Ok(u as i64)
        }
    } else {
        let span: i64 = if width == 1 {
            0x100
        } else if width == 2 {
            0x1_0000
        } else {
            0x1_0000_0000
        };
        if 2 * (u as i64) >= span {
            Ok((u as i64) - span)
        } else {
            Ok(u as i64)
        }
    }
}


/// Relies on `str::chars`: the characters of the string, in order.
#[verifier::external_body]
pub(crate) fn chars_of(s: &str) -> (r: Vec<char>)
    ensures
        r@ == s@,
{
    s.chars().collect()
}

/// Relies on `String`'s `FromIterator<&char>`: the string of these characters, in order.
#[verifier::external_body]
pub(crate) fn string_of(v: &[char]) -> (r: String)
    ensures
        r@ == v@,
{
    v.iter().collect()
}

/// The string of the characters `v[from..to]`.
pub fn string_of_range(v: &Vec<char>, from: usize, to: usize) -> (r: String)
    requires
        from <= to <= v@.len(),
    ensures
        r@ == v@.subrange(from as int, to as int),
{
    let mut part: Vec<char> = Vec::new();
    let mut k: usize = from;
    while k < to
        invariant
            from <= k <= to <= v@.len(),
            part@ == v@.subrange(from as int, k as int),
        decreases to - k,
    {
        part.push(v[k]);
        k = k + 1;
        proof {
            assert(part@ =~= v@.subrange(from as int, k as int));
        }
    }
    string_of(part.as_slice())
}

/// Whether `p` occurs in `s` starting at index `i`.
pub open spec fn matches_at(s: Seq<char>, p: Seq<char>, i: int) -> bool {
    &&& 0 <= i
    &&& i + p.len() <= s.len()
    &&& s.subrange(i, i + p.len()) == p
}

/// The first index at or after `i` where `p` occurs in `s`.
pub open spec fn find_from(s: Seq<char>, p: Seq<char>, i: int) -> Option<int>
    decreases s.len() + 1 - i,
{
    if i < 0 || i + p.len() > s.len() {
        None
    } else if matches_at(s, p, i) {
        Some(i)
    } else {
        find_from(s, p, i + 1)
    }
}

/// Whether `p` occurs anywhere in `s`.
pub open spec fn contains_seq(s: Seq<char>, p: Seq<char>) -> bool {
    find_from(s, p, 0) is Some
}

pub proof fn lemma_find_from_found(s: Seq<char>, p: Seq<char>, i: int)
    ensures
        find_from(s, p, i) matches Some(j) ==> i <= j && matches_at(s, p, j),
    decreases s.len() + 1 - i,
{
    if i >= 0 && i + p.len() <= s.len() && !matches_at(s, p, i) {
        lemma_find_from_found(s, p, i + 1);
    }
}

/// Every occurrence of `p` at or after `i` makes the search succeed.
pub proof fn lemma_find_from_complete(s: Seq<char>, p: Seq<char>, i: int, j: int)
    requires
        0 <= i <= j,
        matches_at(s, p, j),
    ensures
        find_from(s, p, i) is Some,
    decreases j - i,
{
    if !matches_at(s, p, i) {
        lemma_find_from_complete(s, p, i + 1, j);
    }
}

/// Whether `p` occurs in `s` at `i`, compared element by element.
fn matches_at_exec(s: &Vec<char>, p: &Vec<char>, i: usize) -> (r: bool)
    requires
        i + p@.len() <= s@.len(),
    ensures
        r == matches_at(s@, p@, i as int),
{
    let mut k: usize = 0;
    let n = s.len();
    while k < p.len()
        invariant
            n == s@.len(),
            i + p@.len() <= s@.len(),
            k <= p@.len(),
            forall|m: int| 0 <= m < k ==> s@[i + m] == p@[m],
        decreases p@.len() - k,
    {
        if s[i + k] != p[k] {
            proof {
                assert(s@.subrange(i as int, i + p@.len())[k as int] != p@[k as int]);
            }
            return false;
        }
        k = k + 1;
    }
    proof {
        assert(s@.subrange(i as int, i + p@.len()) =~= p@);
    }
    true
}

/// The first index at or after `from` where `p` occurs in `s`.
pub fn find_chars(s: &Vec<char>, p: &Vec<char>, from: usize) -> (r: Option<usize>)
    ensures
        r matches Some(j) ==> find_from(s@, p@, from as int) == Some(j as int),
        r is None ==> find_from(s@, p@, from as int) is None,
{
    let mut i: usize = from;
    while i <= s.len() && p.len() <= s.len() - i
        invariant
            from <= i,
            find_from(s@, p@, from as int) == find_from(s@, p@, i as int),
        decreases s@.len() + 1 - i,
    {
        if matches_at_exec(s, p, i) {
            return Some(i);
        }
        proof {
            if p@.len() == 0 {
                assert(s@.subrange(i as int, i as int) =~= p@);
            }
        }
        i = i + 1;
    }
    None
}

/// Whether `p` occurs anywhere in `s`.
pub fn contains_chars(s: &Vec<char>, p: &Vec<char>) -> (r: bool)
    ensures
        r == contains_seq(s@, p@),
{
    find_chars(s, p, 0).is_some()
}

/// Whether the text `p` occurs anywhere in the text `s`.
pub fn contains_str(s: &str, p: &str) -> (r: bool)
    ensures
        r == contains_seq(s@, p@),
{
    let sv = chars_of(s);
    let pv = chars_of(p);
    contains_chars(&sv, &pv)
}

/// The part of a column name after its first `-` (`15F-System_DateModified`
/// gives `System_DateModified`), or the whole name when it has none.
pub open spec fn column_part(s: Seq<char>) -> Seq<char> {
    match find_from(s, seq!['-'], 0) {
        Some(i) => s.subrange(i + 1, s.len() as int),
        None => s,
    }
}

/// The name without its numeric prefix: the text after the first `-`.
pub fn column_string_part(s: &str) -> (r: &str)
    ensures
        r@ == column_part(s@),
{
    let v = chars_of(s);
    let n = v.len();
    let dash = vec!['-'];
    proof {
        assert(dash@ =~= seq!['-']);
    }
    match find_chars(&v, &dash, 0) {
        Some(i) => {
            proof {
                lemma_find_from_found(v@, dash@, 0);
                assert(matches_at(v@, dash@, i as int));
            }
            s.substring_char(i + 1, n)
        },
        None => s,
    }
}

/// The GUID that follows `key` in `inp`: from just after the first occurrence
/// of `key` up to and including the next `}`; empty when either is missing.
pub open spec fn guid_after(inp: Seq<char>, key: Seq<char>) -> Seq<char> {
    match find_from(inp, key, 0) {
        Some(i) => match find_from(inp, seq!['}'], i + key.len()) {
            Some(j) => inp.subrange(i + key.len(), j + 1),
            None => Seq::empty(),
        },
        None => Seq::empty(),
    }
}

/// Extracts the GUID that follows a `<key>=` marker in a composite URI such as
/// `file:///C:/x.docx?VolumeId={AC04...}&ObjectId={5E5E...}`.
pub fn find_guid(inp: &str, v: &str) -> (r: String)
    ensures
        r@ == guid_after(inp@, v@),
{
    let s = chars_of(inp);
    let n = s.len();
    let key = chars_of(v);
    let key_len = key.len();
    let close = vec!['}'];
    proof {
        assert(close@ =~= seq!['}']);
    }
    match find_chars(&s, &key, 0) {
        Some(i) => {
            proof {
                lemma_find_from_found(s@, key@, 0);
                assert(matches_at(s@, key@, i as int));
            }
            let start = i + key_len;
            match find_chars(&s, &close, start) {
                Some(j) => {
                    proof {
                        lemma_find_from_found(s@, close@, start as int);
                        assert(matches_at(s@, close@, j as int));
                    }
                    string_of_range(&s, start, j + 1)
                },
                None => String::new(),
            }
        },
        None => String::new(),
    }
}


/// The 16-bit code units of a little-endian byte buffer of even length.
pub open spec fn le_units(b: Seq<u8>) -> Seq<u16> {
    Seq::new(b.len() / 2, |i: int| (b[2 * i] as int + 256 * (b[2 * i + 1] as int)) as u16)
}

/// What `String::from_utf16` makes of these code units: the text, or `None`
/// where they hold an unpaired surrogate.
pub uninterp spec fn utf16_decoded(units: Seq<u16>) -> Option<Seq<char>>;

/// Relies on `String::from_utf16`: it decodes the units, and fails exactly on
/// invalid data; the result depends on the units alone.
#[verifier::external_body]
fn decode_utf16_units(units: &[u16]) -> (r: Option<String>)
    ensures
        r is Some <==> utf16_decoded(units@) is Some,
        r matches Some(s) ==> utf16_decoded(units@) == Some(s@),
{
    String::from_utf16(units).ok()
}

/// What decoding `b` as UTF-16LE text gives.
pub open spec fn utf16_result(b: Seq<u8>) -> Result<Seq<char>, FieldError> {
    if b.len() % 2 == 0 && utf16_decoded(le_units(b)) is Some {
        Ok(utf16_decoded(le_units(b))->0)
    } else {
        Err(FieldError::InvalidText)
    }
}

/// Decodes UTF-16LE text. An odd number of bytes, or an unpaired surrogate,
/// is a decoding failure.
pub fn from_utf16(val: &[u8]) -> (r: Result<String, FieldError>)
    ensures
        r is Ok <==> (val@.len() % 2 == 0 && utf16_decoded(le_units(val@)) is Some),
        r matches Ok(s) ==> utf16_decoded(le_units(val@)) == Some(s@),
        r matches Err(e) ==> e == FieldError::InvalidText,
{
    if val.len() % 2 != 0 {
        return Err(FieldError::InvalidText);
    }
    let mut units: Vec<u16> = Vec::new();
    let mut i: usize = 0;
    let n = val.len();
    let half = n / 2;
    while i < half
        invariant
            n == val@.len(),
            half == val@.len() / 2,
            i <= half,
            units@ == le_units(val@).subrange(0, i as int),
        decreases half - i,
    {
        let lo = val[2 * i] as u16;
        let hi = val[2 * i + 1] as u16;
        let u: u16 = lo + 256 * hi;
        units.push(u);
        i = i + 1;
        proof {
            assert(units@ =~= le_units(val@).subrange(0, i as int));
        }
    }
    proof {
        assert(units@ =~= le_units(val@));
    }
    match decode_utf16_units(units.as_slice()) {
        Some(s) => Ok(s),
        None => Err(FieldError::InvalidText),
    }
}

/// The decimal digit character of `d` (below ten).
pub open spec fn digit_char(d: nat) -> char {
    if d == 0 { '0' } else if d == 1 { '1' } else if d == 2 { '2' } else if d == 3 { '3' }
    else if d == 4 { '4' } else if d == 5 { '5' } else if d == 6 { '6' } else if d == 7 { '7' }
    else if d == 8 { '8' } else { '9' }
}

fn digit_char_exec(d: u64) -> (c: char)
    requires
        d < 10,
    ensures
        c == digit_char(d as nat),
{
    if d == 0 { '0' } else if d == 1 { '1' } else if d == 2 { '2' } else if d == 3 { '3' }
    else if d == 4 { '4' } else if d == 5 { '5' } else if d == 6 { '6' } else if d == 7 { '7' }
    else if d == 8 { '8' } else { '9' }
}

/// The last `width` decimal digits of `n`, zero-padded on the left.
pub open spec fn padded_digits(n: nat, width: nat) -> Seq<char>
    decreases width,
{
    if width == 0 {
        Seq::empty()
    } else {
        padded_digits(n / 10, (width - 1) as nat).push(digit_char(n % 10))
    }
}

/// The decimal text of `n`, without leading zeros.
pub open spec fn decimal_text(n: nat) -> Seq<char>
    decreases n,
{
    if n < 10 {
        seq![digit_char(n)]
    } else {
        decimal_text(n / 10).push(digit_char(n % 10))
    }
}

/// Appends the last `width` decimal digits of `n`, zero-padded.
pub fn push_padded_digits(n: u64, width: usize, out: &mut Vec<char>)
    ensures
        final(out)@ == old(out)@ + padded_digits(n as nat, width as nat),
    decreases width,
{
    if width == 0 {
        assert(old(out)@ + Seq::<char>::empty() =~= old(out)@);
        return;
    }
    push_padded_digits(n / 10, width - 1, out);
    out.push(digit_char_exec(n % 10));
    proof {
        let w = (width - 1) as nat;
        assert(padded_digits(n as nat, width as nat) == padded_digits(n as nat / 10, w).push(
            digit_char(n as nat % 10),
        ));
        assert(final(out)@ =~= old(out)@ + padded_digits(n as nat, width as nat));
    }
}

/// Appends the decimal text of `n`.
pub fn push_decimal(n: u64, out: &mut Vec<char>)
    ensures
        final(out)@ == old(out)@ + decimal_text(n as nat),
    decreases n,
{
    if n < 10 {
        out.push(digit_char_exec(n));
        proof {
            assert(final(out)@ =~= old(out)@ + decimal_text(n as nat));
        }
        return;
    }
    push_decimal(n / 10, out);
    out.push(digit_char_exec(n % 10));
    proof {
        assert(final(out)@ =~= old(out)@ + decimal_text(n as nat));
    }
}

/// The decimal text of an unsigned integer.
pub fn decimal_string(n: u64) -> (r: String)
    ensures
        r@ == decimal_text(n as nat),
{
    let mut v: Vec<char> = Vec::new();
    push_decimal(n, &mut v);
    proof {
        assert(v@ =~= decimal_text(n as nat));
    }
    string_of(v.as_slice())
}


/// The first second that chrono's calendar holds: -262143-01-01T00:00:00Z.
pub const MIN_CALENDAR_SECS: i64 = -8334601228800;

/// The last second that chrono's calendar holds: 262142-12-31T23:59:59Z.
pub const MAX_CALENDAR_SECS: i64 = 8210266876799;

/// Whether an instant lies in the range that the calendar formatting covers.
pub open spec fn formattable(t: UtcDateTime) -> bool {
    &&& t.wf()
    &&& -8334601228800 <= t.secs <= 8210266876799
}

/// What chrono writes for `%Y-%m-%dT%H:%M:%S` at these Unix seconds.
pub uninterp spec fn calendar_text(secs: int) -> Seq<char>;

/// What chrono's `to_rfc3339_opts(SecondsFormat::Nanos, true)` writes for this instant.
pub uninterp spec fn rfc3339_nanos_text(secs: int, nanos: int) -> Seq<char>;

/// The Unix seconds that chrono gives to these UTC calendar fields, if they
/// name exactly one instant.
pub uninterp spec fn calendar_seconds(
    year: int,
    month: int,
    day: int,
    hour: int,
    minute: int,
    second: int,
) -> Option<int>;

/// Relies on chrono's `DateTime::<Utc>::from_timestamp` (which succeeds for
/// every second from -262143-01-01 to 262142-12-31, its `NaiveDate` range) and its `%Y-%m-%dT%H:%M:%S` format.
#[verifier::external_body]
fn calendar_seconds_text(secs: i64) -> (r: Option<String>)
    ensures
        r matches Some(s) ==> s@ == calendar_text(secs as int),
        (-8334601228800 <= secs <= 8210266876799) ==> r is Some,
{
    chrono::DateTime::<chrono::Utc>::from_timestamp(secs, 0).map(
        |d| d.format("%Y-%m-%dT%H:%M:%S").to_string(),
    )
}

/// Relies on chrono's `DateTime::<Utc>::from_timestamp` and
/// `to_rfc3339_opts(SecondsFormat::Nanos, true)`.
#[verifier::external_body]
fn rfc3339_nanos(secs: i64, nanos: u32) -> (r: Option<String>)
    ensures
        r matches Some(s) ==> s@ == rfc3339_nanos_text(secs as int, nanos as int),
        (-8334601228800 <= secs <= 8210266876799 && nanos < 1_000_000_000) ==> r is Some,
{
    chrono::DateTime::<chrono::Utc>::from_timestamp(secs, nanos).map(
        |d| d.to_rfc3339_opts(chrono::SecondsFormat::Nanos, true),
    )
}

/// Relies on chrono's `Utc.with_ymd_and_hms(..).single()`: the instant of
/// these calendar fields, or `None` when they name no single instant.
#[verifier::external_body]
pub(crate) fn utc_from_calendar(
    year: i32,
    month: u32,
    day: u32,
    hour: u32,
    minute: u32,
    second: u32,
) -> (r: Option<i64>)
    ensures
        r matches Some(v) ==> calendar_seconds(
            year as int,
            month as int,
            day as int,
            hour as int,
            minute as int,
            second as int,
        ) == Some(v as int),
        r is None ==> calendar_seconds(
            year as int,
            month as int,
            day as int,
            hour as int,
            minute as int,
            second as int,
        ) is None,
{
    chrono::TimeZone::with_ymd_and_hms(&chrono::Utc, year, month, day, hour, minute, second)
        .single()
        .map(
        |d| d.timestamp(),
    )
}

/// The text of an instant: `YYYY-MM-DDTHH:MM:SS.fffffffZ` with seven
/// fractional digits (the FILETIME precision) when the instant falls on a
/// 100 ns tick, and the nine-digit RFC 3339 form otherwise.
pub open spec fn date_time_text(t: UtcDateTime) -> Seq<char> {
    if t.nanos % 100 == 0 {
        calendar_text(t.secs as int) + seq!['.'] + padded_digits((t.nanos / 100) as nat, 7)
            + seq!['Z']
    } else {
        rfc3339_nanos_text(t.secs as int, t.nanos as int)
    }
}

/// Formats an instant as ISO-8601 / RFC 3339 with 100 ns precision.
pub fn format_date_time(t: &UtcDateTime) -> (r: String)
    requires
        formattable(*t),
    ensures
        r@ == date_time_text(*t),
{
    if t.nanos % 100 == 0 {
        match calendar_seconds_text(t.secs) {
            Some(head) => {
                let mut v = chars_of(head.as_str());
                v.push('.');
                push_padded_digits((t.nanos / 100) as u64, 7, &mut v);
                v.push('Z');
                proof {
                    assert(v@ =~= date_time_text(*t));
                }
                string_of(v.as_slice())
            },
            None => {
                proof {
                    assert(false);
                }
                String::new()
            },
        }
    } else {
        match rfc3339_nanos(t.secs, t.nanos) {
            Some(s) => s,
            None => {
                proof {
                    assert(false);
                }
                String::new()
            },
        }
    }
}

} // verus!
