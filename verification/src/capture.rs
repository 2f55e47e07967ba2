//! Capture-date extraction: reads the original-capture timestamp from a
//! media file's embedded metadata, parses it, and falls back to a fixed
//! sentinel (2000-01-01 00:00:00) whenever the metadata is absent,
//! malformed, or does not resolve to a unique local time.
//!
//! The timestamp text tolerates two separator conventions,
//! `YYYY-MM-DD HH:MM:SS` and `YYYY.MM.DD HH:MM:SS`, and stray quote
//! characters are stripped before parsing.

use vstd::prelude::*;
use crate::digits::{seq_val, dec_seq_pad, push_dec_pad};
use crate::paths::{DOT, SLASH};

verus! {

pub const QUOTE: u8 = 34;

pub const HYPHEN: u8 = 45;

pub const SPACE: u8 = 32;

pub const COLON: u8 = 58;

/// A capture timestamp as read from metadata, field by field.
#[derive(PartialEq, Eq, Structural, Clone, Copy, Debug)]
pub struct CaptureStamp {
    pub year: u32,
    pub month: u32,
    pub day: u32,
    pub hour: u32,
    pub minute: u32,
    pub second: u32,
}

/// The sentinel used whenever no capture time can be determined.
pub open spec fn sentinel_stamp() -> CaptureStamp {
    CaptureStamp { year: 2000, month: 1, day: 1, hour: 0, minute: 0, second: 0 }
}

/// The sentinel timestamp, 2000-01-01 00:00:00.
pub fn sentinel() -> (r: CaptureStamp)
    ensures
        r == sentinel_stamp(),
{
    CaptureStamp { year: 2000, month: 1, day: 1, hour: 0, minute: 0, second: 0 }
}

/// `s` with every quote character removed.
pub open spec fn without_quotes(s: Seq<u8>) -> Seq<u8>
    decreases s.len(),
{
    if s.len() == 0 {
        Seq::empty()
    } else if s.last() == QUOTE {
        without_quotes(s.drop_last())
    } else {
        without_quotes(s.drop_last()).push(s.last())
    }
}

/// Removes every quote character.
pub fn strip_quotes(v: &Vec<u8>) -> (r: Vec<u8>)
    ensures
        r@ == without_quotes(v@),
{
    let mut out: Vec<u8> = Vec::new();
    let mut k: usize = 0;
    proof {
        assert(v@.subrange(0, 0) =~= Seq::<u8>::empty());
    }
    while k < v.len()
        invariant
            0 <= k <= v@.len(),
            out@ == without_quotes(v@.subrange(0, k as int)),
        decreases v@.len() - k,
    {
        let b: u8 = v[k];
        proof {
            assert(v@.subrange(0, k + 1).drop_last() =~= v@.subrange(0, k as int));
            assert(v@.subrange(0, k + 1).last() == v@[k as int]);
        }
        if b != QUOTE {
            out.push(b);
        }
        k = k + 1;
    }
    proof {
        assert(v@.subrange(0, v@.len() as int) =~= v@);
    }
    out
}

/// Index of the first occurrence of `b` in `s`, or -1 if absent.
pub open spec fn first_pos(s: Seq<u8>, b: u8) -> int
    decreases s.len(),
{
    if s.len() == 0 {
        -1
    } else if s[0] == b {
        0
    } else if first_pos(s.subrange(1, s.len() as int), b) < 0 {
        -1
    } else {
        first_pos(s.subrange(1, s.len() as int), b) + 1
    }
}

pub proof fn lemma_first_pos(s: Seq<u8>, b: u8)
    ensures
        -1 <= first_pos(s, b) < s.len(),
        first_pos(s, b) >= 0 ==> s[first_pos(s, b)] == b,
        forall|k: int| 0 <= k < first_pos(s, b) ==> s[k] != b,
        first_pos(s, b) < 0 ==> forall|k: int| 0 <= k < s.len() ==> s[k] != b,
    decreases s.len(),
{
    if s.len() > 0 && s[0] != b {
        let t = s.subrange(1, s.len() as int);
        lemma_first_pos(t, b);
        assert forall|k: int| 0 <= k < first_pos(s, b) implies s[k] != b by {
            if k > 0 {
                assert(t[k - 1] == s[k]);
            }
        }
        if first_pos(s, b) < 0 {
            assert forall|k: int| 0 <= k < s.len() implies s[k] != b by {
                if k > 0 {
                    assert(t[k - 1] == s[k]);
                }
            }
        }
    }
}

/// Whether `v` holds the byte `b`.
pub fn contains_byte(v: &Vec<u8>, b: u8) -> (r: bool)
    ensures
        r == v@.contains(b),
{
    let mut k: usize = 0;
    while k < v.len()
        invariant
            0 <= k <= v@.len(),
            forall|t: int| 0 <= t < k ==> v@[t] != b,
        decreases v@.len() - k,
    {
        if v[k] == b {
            proof {
                assert(v@[k as int] == b);
            }
            return true;
        }
        k = k + 1;
    }
    false
}

/// Splits `v` at the first occurrence of `b`: the part before it and
/// the part after it.
pub fn split_at_first(v: &Vec<u8>, b: u8) -> (r: Option<(Vec<u8>, Vec<u8>)>)
    ensures
        r matches Some(p) ==> first_pos(v@, b) >= 0 && p.0@ == v@.subrange(
            0,
            first_pos(v@, b),
        ) && p.1@ == v@.subrange(first_pos(v@, b) + 1, v@.len() as int),
        r is None ==> first_pos(v@, b) == -1,
{
    proof {
        lemma_first_pos(v@, b);
    }
    let n: usize = v.len();
    let mut k: usize = 0;
    while k < n
        invariant
            n == v@.len(),
            0 <= k <= v@.len(),
            forall|t: int| 0 <= t < k ==> v@[t] != b,
        decreases v@.len() - k,
    {
        if v[k] == b {
            proof {
                lemma_first_pos(v@, b);
                assert(v@[k as int] == b);
                if first_pos(v@, b) < 0 {
                    assert(false);
                }
                if first_pos(v@, b) < k {
                    assert(false);
                }
                if first_pos(v@, b) > k {
                    assert(false);
                }
            }
            let before = crate::paths::copy_range(v, 0, k);
            let after = crate::paths::copy_range(v, k + 1, n);
            return Some((before, after));
        }
        k = k + 1;
    }
    proof {
        lemma_first_pos(v@, b);
        if first_pos(v@, b) >= 0 {
            assert(false);
        }
    }
    None
}

/// Numeric value of a metadata field: defined only for a nonempty,
/// all-digit field whose value fits in 32 bits.
pub open spec fn field_val(s: Seq<u8>) -> Option<u32> {
    if s.len() >= 1 && (forall|k: int| 0 <= k < s.len() ==> 48 <= #[trigger] s[k] <= 57) && seq_val(
        s,
    ) <= u32::MAX {
        Some(seq_val(s) as u32)
    } else {
        None
    }
}

/// The value of a digit sequence is at least the value of any prefix.
proof fn lemma_seq_val_mono(s: Seq<u8>, k: int)
    requires
        0 <= k <= s.len(),
    ensures
        seq_val(s) >= seq_val(s.subrange(0, k)),
    decreases s.len() - k,
{
    if k == s.len() {
        assert(s.subrange(0, k) =~= s);
    } else {
        lemma_seq_val_mono(s, k + 1);
        let t = s.subrange(0, k + 1);
        assert(t.drop_last() =~= s.subrange(0, k));
        assert(seq_val(t) >= seq_val(t.drop_last()) * 10);
    }
}

/// Parses one numeric field.
pub fn parse_field(s: &Vec<u8>) -> (r: Option<u32>)
    ensures
        r == field_val(s@),
{
    let n: usize = s.len();
    if n == 0 {
        return None;
    }
    let mut val: u64 = 0;
    let mut k: usize = 0;
    proof {
        assert(s@.subrange(0, 0) =~= Seq::<u8>::empty());
    }
    while k < n
        invariant
            n == s@.len(),
            0 <= k <= s@.len(),
            forall|t: int| 0 <= t < k ==> 48 <= #[trigger] s@[t] <= 57,
            val == seq_val(s@.subrange(0, k as int)),
            val <= u32::MAX,
        decreases s@.len() - k,
    {
        let b: u8 = s[k];
        if b < 48 || b > 57 {
            proof {
                assert(!(48 <= s@[k as int] <= 57));
            }
            return None;
        }
        let d: u64 = (b - 48) as u64;
        let nv: u64 = val * 10 + d;
        proof {
            let t = s@.subrange(0, k + 1);
            assert(t.drop_last() =~= s@.subrange(0, k as int));
            assert(t.last() == s@[k as int]);
            assert(seq_val(t) == nv);
        }
        if nv > 0xffff_ffff {
            proof {
                lemma_seq_val_mono(s@, k + 1);
            }
            return None;
        }
        val = nv;
        k = k + 1;
    }
    proof {
        assert(s@.subrange(0, s@.len() as int) =~= s@);
    }
    Some(val as u32)
}

/// What the timestamp text parses to: six numeric fields, year and
/// month and day separated by the text's own separator (a dot if it
/// has one, a hyphen otherwise), day and hour by a space, the rest by
/// colons, with quote characters ignored. The year must fit a signed
/// 32-bit count. Anything else parses to nothing.
pub open spec fn parse_spec(text: Seq<u8>) -> Option<CaptureStamp> {
    let t = without_quotes(text);
    let sep: u8 = if t.contains(DOT) {
        DOT
    } else {
        HYPHEN
    };
    if first_pos(t, sep) < 0 {
        None
    } else {
        let year_s = t.subrange(0, first_pos(t, sep));
        let r1 = t.subrange(first_pos(t, sep) + 1, t.len() as int);
        if first_pos(r1, sep) < 0 {
            None
        } else {
            let month_s = r1.subrange(0, first_pos(r1, sep));
            let r2 = r1.subrange(first_pos(r1, sep) + 1, r1.len() as int);
            if first_pos(r2, SPACE) < 0 {
                None
            } else {
                let day_s = r2.subrange(0, first_pos(r2, SPACE));
                let r3 = r2.subrange(first_pos(r2, SPACE) + 1, r2.len() as int);
                if first_pos(r3, COLON) < 0 {
                    None
                } else {
                    let hour_s = r3.subrange(0, first_pos(r3, COLON));
                    let r4 = r3.subrange(first_pos(r3, COLON) + 1, r3.len() as int);
                    if first_pos(r4, COLON) < 0 {
                        None
                    } else {
                        let minute_s = r4.subrange(0, first_pos(r4, COLON));
                        let second_s = r4.subrange(first_pos(r4, COLON) + 1, r4.len() as int);
                        if field_val(year_s) is Some && field_val(year_s).unwrap() <= 0x7fff_ffff
                            && field_val(month_s) is Some && field_val(day_s) is Some && field_val(
                            hour_s,
                        ) is Some && field_val(minute_s) is Some && field_val(second_s) is Some {
                            Some(
                                CaptureStamp {
                                    year: field_val(year_s).unwrap(),
                                    month: field_val(month_s).unwrap(),
                                    day: field_val(day_s).unwrap(),
                                    hour: field_val(hour_s).unwrap(),
                                    minute: field_val(minute_s).unwrap(),
                                    second: field_val(second_s).unwrap(),
                                },
                            )
                        } else {
                            None
                        }
                    }
                }
            }
        }
    }
}

/// Parses a capture timestamp text.
pub fn parse_capture(text: &Vec<u8>) -> (r: Option<CaptureStamp>)
    ensures
        r == parse_spec(text@),
{
    let t = strip_quotes(text);
    let sep: u8 = if contains_byte(&t, DOT) {
        DOT
    } else {
        HYPHEN
    };
    let (year_s, r1) = match split_at_first(&t, sep) {
        Some(p) => p,
        None => {
            return None;
        },
    };
    let (month_s, r2) = match split_at_first(&r1, sep) {
        Some(p) => p,
        None => {
            return None;
        },
    };
    let (day_s, r3) = match split_at_first(&r2, SPACE) {
        Some(p) => p,
        None => {
            return None;
        },
    };
    let (hour_s, r4) = match split_at_first(&r3, COLON) {
        Some(p) => p,
        None => {
            return None;
        },
    };
    let (minute_s, second_s) = match split_at_first(&r4, COLON) {
        Some(p) => p,
        None => {
            return None;
        },
    };
    let year = match parse_field(&year_s) {
        Some(y) => y,
        None => {
            return None;
        },
    };
    if year > 0x7fff_ffff {
        return None;
    }
    let month = match parse_field(&month_s) {
        Some(m) => m,
        None => {
            return None;
        },
    };
    let day = match parse_field(&day_s) {
        Some(d) => d,
        None => {
            return None;
        },
    };
    let hour = match parse_field(&hour_s) {
        Some(h) => h,
        None => {
            return None;
        },
    };
    let minute = match parse_field(&minute_s) {
        Some(m) => m,
        None => {
            return None;
        },
    };
    let second = match parse_field(&second_s) {
        Some(sv) => sv,
        None => {
            return None;
        },
    };
    Some(CaptureStamp { year, month, day, hour, minute, second })
}

/// The destination directory for a capture time: `YYYY/YYYYMM`, year
/// zero-padded to four digits, month to two.
pub open spec fn dir_of(year: nat, month: nat) -> Seq<u8> {
    dec_seq_pad(year, 4) + seq![SLASH] + dec_seq_pad(year, 4) + dec_seq_pad(month, 2)
}

/// The directory a stamp maps to.
pub open spec fn stamp_dir_of(st: CaptureStamp) -> Seq<u8> {
    dir_of(st.year as nat, st.month as nat)
}

/// Builds the `YYYY/YYYYMM` directory for a stamp.
pub fn stamp_dir(st: &CaptureStamp) -> (r: Vec<u8>)
    ensures
        r@ == stamp_dir_of(*st),
{
    let mut out: Vec<u8> = Vec::new();
    push_dec_pad(st.year, 4, &mut out);
    out.push(SLASH);
    push_dec_pad(st.year, 4, &mut out);
    push_dec_pad(st.month, 2, &mut out);
    proof {
        assert(out@ =~= stamp_dir_of(*st));
    }
    out
}

/// The directory the sentinel maps to.
pub open spec fn sentinel_dir() -> Seq<u8> {
    seq![50u8, 48u8, 48u8, 48u8, 47u8, 50u8, 48u8, 48u8, 48u8, 48u8, 49u8]
}

/// A file with no usable capture metadata lands under `2000/200001`.
pub proof fn lemma_sentinel_dir()
    ensures
        stamp_dir_of(sentinel_stamp()) == sentinel_dir(),
{
    reveal_with_fuel(crate::digits::dec_seq, 5);
    assert(stamp_dir_of(sentinel_stamp()) =~= sentinel_dir());
}

/// The capture-date text embedded in an image, as the exif crate
/// renders it; a function of the image bytes alone.
pub uninterp spec fn exif_datetime_of(bytes: Seq<u8>) -> Option<Seq<u8>>;

/// Relies on exif::Reader::read_from_container, Exif::get_field and
/// Field::display_value: parsing an in-memory image and rendering its
/// original-capture field depend on the bytes alone.
#[verifier::external_body]
fn exif_datetime_original(bytes: &Vec<u8>) -> (r: Option<Vec<u8>>)
    ensures
        r is Some <==> exif_datetime_of(bytes@) is Some,
        r matches Some(s) ==> s@ == exif_datetime_of(bytes@)->Some_0,
{
    let mut cur = std::io::Cursor::new(bytes.as_slice());
    let exif = match exif::Reader::new().read_from_container(&mut cur) {
        Ok(e) => e,
        Err(_) => return None,
    };
    match exif.get_field(exif::Tag::DateTimeOriginal, exif::In::PRIMARY) {
        Some(field) => Some(field.display_value().to_string().into_bytes()),
        None => None,
    }
}

/// How the local calendar resolves a field combination.
#[derive(PartialEq, Eq, Structural, Clone, Copy, Debug)]
pub enum LocalOutcome {
    /// The fields denote exactly one local instant.
    Unique,
    /// A daylight-saving fold makes the fields denote two instants.
    Ambiguous,
    /// The fields denote no local instant.
    Invalid,
}

/// Relies on chrono's TimeZone::with_ymd_and_hms on Local: the local
/// calendar may reject the fields, resolve them to one instant, or
/// (around a daylight-saving fold) to two. Which outcome comes back
/// depends on the machine's time zone, so nothing is promised of it.
#[verifier::external_body]
fn classify_local_time(year: u32, month: u32, day: u32, hour: u32, minute: u32, second: u32) -> (r:
    LocalOutcome)
    requires
        year <= 0x7fff_ffff,
{
    match chrono::TimeZone::with_ymd_and_hms(&chrono::Local, year as i32, month, day, hour, minute,
        second) {
        chrono::LocalResult::Single(_) => LocalOutcome::Unique,
        chrono::LocalResult::Ambiguous(_, _) => LocalOutcome::Ambiguous,
        chrono::LocalResult::None => LocalOutcome::Invalid,
    }
}

/// Whether the image bytes carry no capture timestamp that parses.
pub open spec fn capture_unparsable(bytes: Seq<u8>) -> bool {
    exif_datetime_of(bytes) is None || parse_spec(exif_datetime_of(bytes)->Some_0) is None
}

/// The stamp used once the local calendar has spoken: the parsed stamp
/// when it denotes exactly one local instant, the sentinel otherwise.
pub fn capture_from_fields(st: &CaptureStamp, outcome: LocalOutcome) -> (r: CaptureStamp)
    ensures
        outcome is Unique ==> r == *st,
        !(outcome is Unique) ==> r == sentinel_stamp(),
{
    match outcome {
        LocalOutcome::Unique => *st,
        LocalOutcome::Ambiguous => sentinel(),
        LocalOutcome::Invalid => sentinel(),
    }
}

/// The capture stamp of an image: its embedded timestamp when one is
/// present, parses, and resolves to a unique local instant; the
/// sentinel on every failure.
pub fn capture_stamp(bytes: &Vec<u8>) -> (r: CaptureStamp)
    ensures
        capture_unparsable(bytes@) ==> r == sentinel_stamp(),
        !capture_unparsable(bytes@) ==> r == parse_spec(exif_datetime_of(bytes@)->Some_0).unwrap()
            || r == sentinel_stamp(),
{
    match exif_datetime_original(bytes) {
        None => sentinel(),
        Some(text) => match parse_capture(&text) {
            None => sentinel(),
            Some(st) => {
                let outcome = classify_local_time(st.year, st.month, st.day, st.hour, st.minute,
                    st.second);
                capture_from_fields(&st, outcome)
            },
        },
    }
}

/// What a destination directory may be for given image bytes: the
/// parsed stamp's `YYYY/YYYYMM` or the sentinel's when the calendar
/// rejects the stamp, and the sentinel's alone when nothing parses.
pub open spec fn dir_ok(bytes: Seq<u8>, dir: Seq<u8>) -> bool {
    if capture_unparsable(bytes) {
        dir == sentinel_dir()
    } else {
        dir == stamp_dir_of(parse_spec(exif_datetime_of(bytes)->Some_0).unwrap()) || dir
            == sentinel_dir()
    }
}

/// The destination directory for an image: `YYYY/YYYYMM` of its
/// capture stamp, `2000/200001` when no capture time can be determined.
pub fn capture_dir(bytes: &Vec<u8>) -> (r: Vec<u8>)
    ensures
        dir_ok(bytes@, r@),
{
    let st = capture_stamp(bytes);
    proof {
        lemma_sentinel_dir();
    }
    stamp_dir(&st)
}

} // verus!
