//! Byte classes of the LTSV grammar and runs of bytes of one class.

use vstd::prelude::*;

verus! {

/// Horizontal tab: ends a field, more fields follow in the record.
pub const TAB: u8 = 0x09;

/// Line feed: ends a field and its record.
pub const LF: u8 = 0x0a;

/// Carriage return: legal only directly in front of a line feed.
pub const CR: u8 = 0x0d;

/// Colon: ends a label.
pub const COLON: u8 = 0x3a;

/// The three classes of bytes that the parser scans runs of.
pub enum ByteClass {
    /// Digits, ASCII letters, `_`, `.` and `-`.
    Label,
    /// Every byte but NUL, TAB, LF and CR.
    Value,
    /// The bytes skipped in front of a label.
    Whitespace,
}

/// `true` for the bytes that may appear in a label.
pub open spec fn is_label_byte(b: u8) -> bool {
    ||| 0x30 <= b <= 0x39
    ||| 0x41 <= b <= 0x5a
    ||| 0x61 <= b <= 0x7a
    ||| b == 0x5f
    ||| b == 0x2e
    ||| b == 0x2d
}

/// `true` for the bytes that may appear in a value.
pub open spec fn is_value_byte(b: u8) -> bool {
    ||| 0x01 <= b <= 0x08
    ||| b == 0x0b
    ||| b == 0x0c
    ||| 0x0e <= b <= 0xff
}

/// `true` for the bytes that count as whitespace: those whose value, read as a
/// code point, has the Unicode property White_Space (U+0009 to U+000D, U+0020,
/// U+0085 and U+00A0).
pub open spec fn is_whitespace_byte(b: u8) -> bool {
    ||| 0x09 <= b <= 0x0d
    ||| b == 0x20
    ||| b == 0x85
    ||| b == 0xa0
}

/// Membership of `b` in the class `c`.
pub open spec fn in_class(c: ByteClass, b: u8) -> bool {
    match c {
        ByteClass::Label => is_label_byte(b),
        ByteClass::Value => is_value_byte(b),
        ByteClass::Whitespace => is_whitespace_byte(b),
    }
}

/// A label: at least one byte, every byte a label byte.
pub open spec fn is_label(s: Seq<u8>) -> bool {
    &&& s.len() >= 1
    &&& forall|i: int| 0 <= i < s.len() ==> is_label_byte(#[trigger] s[i])
}

/// A value: any number of bytes, every byte a value byte.
pub open spec fn is_value(s: Seq<u8>) -> bool {
    forall|i: int| 0 <= i < s.len() ==> is_value_byte(#[trigger] s[i])
}

/// The length of the longest prefix of `s` whose bytes are all in the class `c`.
pub open spec fn run_len(c: ByteClass, s: Seq<u8>) -> nat
    decreases s.len(),
{
    if s.len() > 0 && in_class(c, s[0]) {
        1 + run_len(c, s.skip(1))
    } else {
        0
    }
}

/// Decides whether `b` may appear in a label.
pub fn label_byte(b: u8) -> (r: bool)
    ensures
        r == is_label_byte(b),
{
    (0x30 <= b && b <= 0x39) || (0x41 <= b && b <= 0x5a) || (0x61 <= b && b <= 0x7a) || b == 0x5f
        || b == 0x2e || b == 0x2d
}

/// Decides whether `b` may appear in a value.
pub fn value_byte(b: u8) -> (r: bool)
    ensures
        r == is_value_byte(b),
{
    (0x01 <= b && b <= 0x08) || b == 0x0b || b == 0x0c || 0x0e <= b
}

/// Decides whether `b` is whitespace.
pub fn whitespace_byte(b: u8) -> (r: bool)
    ensures
        r == is_whitespace_byte(b),
{
    (0x09 <= b && b <= 0x0d) || b == 0x20 || b == 0x85 || b == 0xa0
}

/// A run is a prefix, every byte of it is in the class, and the byte after it,
/// if there is one, is not.
pub proof fn lemma_run_len(c: ByteClass, s: Seq<u8>)
    ensures
        run_len(c, s) <= s.len(),
        forall|i: int| 0 <= i < run_len(c, s) ==> in_class(c, #[trigger] s[i]),
        run_len(c, s) < s.len() ==> !in_class(c, s[run_len(c, s) as int]),
    decreases s.len(),
{
    if s.len() > 0 && in_class(c, s[0]) {
        let t = s.skip(1);
        lemma_run_len(c, t);
        assert forall|i: int| 0 <= i < run_len(c, s) implies in_class(c, #[trigger] s[i]) by {
            if i > 0 {
                assert(s[i] == t[i - 1]);
            }
        }
        if run_len(c, s) < s.len() {
            assert(s[run_len(c, s) as int] == t[run_len(c, t) as int]);
        }
    }
}

/// A prefix of class bytes that ends at the end of `s`, or in front of a byte
/// outside the class, is the run.
pub proof fn lemma_run_len_is(c: ByteClass, s: Seq<u8>, n: nat)
    requires
        n <= s.len(),
        forall|i: int| 0 <= i < n ==> in_class(c, #[trigger] s[i]),
        n < s.len() ==> !in_class(c, s[n as int]),
    ensures
        run_len(c, s) == n,
    decreases n,
{
    if n > 0 {
        let t = s.skip(1);
        assert(in_class(c, s[0]));
        assert forall|i: int| 0 <= i < n - 1 implies in_class(c, #[trigger] t[i]) by {
            assert(t[i] == s[i + 1]);
        }
        if n < s.len() {
            assert(t[n - 1] == s[n as int]);
        }
        lemma_run_len_is(c, t, (n - 1) as nat);
    }
}

} // verus!
