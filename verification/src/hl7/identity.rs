//! Where identities and times come from: random UUIDs and the system clock.

use vstd::prelude::*;
use vstd::string::*;
use crate::text::{push_char, to_chars};

verus! {

/// A decimal digit or a lower-case letter from `a` to `f`.
pub open spec fn is_lower_hex(c: char) -> bool {
    ('0' <= c && c <= '9') || ('a' <= c && c <= 'f')
}

/// The hyphenated form of a UUID: 36 characters, hyphens at the positions 8,
/// 13, 18 and 23, lower-case hexadecimal digits elsewhere.
pub open spec fn is_uuid_text(s: Seq<char>) -> bool {
    &&& s.len() == 36
    &&& forall|i: int|
        0 <= i < 36 ==> if i == 8 || i == 13 || i == 18 || i == 23 {
            #[trigger] s[i] == '-'
        } else {
            is_lower_hex(s[i])
        }
}

/// A character that a numeric time stamp may hold: a digit or a sign.
pub open spec fn is_stamp_char(c: char) -> bool {
    ('0' <= c && c <= '9') || c == '+' || c == '-'
}

/// A text made of digits and signs only.
pub open spec fn is_stamp(s: Seq<char>) -> bool {
    forall|i: int| 0 <= i < s.len() ==> is_stamp_char(#[trigger] s[i])
}

/// A fresh random UUID in its hyphenated lower-case form.
///
/// Trusted: `uuid::Uuid::new_v4` and the `Display` form of `uuid::Uuid`. The
/// value is random, so the contract states only the shape that every UUID
/// prints in.
#[verifier::external_body]
pub(crate) fn fresh_uuid() -> (r: String)
    ensures
        is_uuid_text(r@),
{
    uuid::Uuid::new_v4().to_string()
}

/// The current time in seconds since the Unix epoch.
///
/// Trusted: `chrono::Utc::now` and `DateTime::timestamp`. Nothing is claimed
/// of the value. The call gives up where the system clock stands before the
/// epoch.
#[verifier::external_body]
pub(crate) fn unix_now() -> (r: i64) {
    chrono::Utc::now().timestamp()
}

/// The current UTC time as `YYYYMMDDHHMMSS`.
///
/// Trusted: `chrono::Utc::now` and `DateTime::format` with the numeric items
/// `%Y%m%d%H%M%S`, which print digits, and a sign before a year outside
/// `0..=9999`. Nothing else is claimed of the value.
#[verifier::external_body]
pub(crate) fn utc_stamp_now() -> (r: String)
    ensures
        is_stamp(r@),
{
    chrono::Utc::now().format("%Y%m%d%H%M%S").to_string()
}

/// `s` without its hyphens.
pub open spec fn without_hyphens(s: Seq<char>) -> Seq<char>
    decreases s.len(),
{
    if s.len() == 0 {
        s
    } else if s.last() == '-' {
        without_hyphens(s.drop_last())
    } else {
        without_hyphens(s.drop_last()).push(s.last())
    }
}

/// The control id drawn from a UUID text: its first 20 characters that are
/// no hyphens, or all of them where there are fewer.
pub open spec fn control_id_of(uuid: Seq<char>) -> Seq<char> {
    let h = without_hyphens(uuid);
    if h.len() <= 20 {
        h
    } else {
        h.take(20)
    }
}

/// What a control id drawn from a UUID is: 20 lower-case hexadecimal digits.
pub open spec fn is_control_id(s: Seq<char>) -> bool {
    &&& s.len() == 20
    &&& forall|i: int| 0 <= i < s.len() ==> is_lower_hex(#[trigger] s[i])
}

/// The hyphens among the first `k` characters of a UUID text.
pub open spec fn hyphens_before(k: int) -> int {
    (if k > 8 { 1int } else { 0 }) + (if k > 13 { 1int } else { 0 }) + (if k > 18 { 1int } else { 0 })
        + (if k > 23 { 1int } else { 0 })
}

/// What is left of a prefix of a UUID text once the hyphens are gone.
pub proof fn lemma_uuid_prefix(s: Seq<char>, k: int)
    requires
        is_uuid_text(s),
        0 <= k <= 36,
    ensures
        without_hyphens(s.take(k)).len() == k - hyphens_before(k),
        forall|i: int|
            0 <= i < without_hyphens(s.take(k)).len() ==> is_lower_hex(
                #[trigger] without_hyphens(s.take(k))[i],
            ),
    decreases k,
{
    if k > 0 {
        lemma_uuid_prefix(s, k - 1);
        assert(s.take(k).drop_last() =~= s.take(k - 1));
        assert(s.take(k).last() == s[k - 1]);
    }
}

/// The control id drawn from a UUID text is 20 hexadecimal digits.
pub proof fn lemma_control_id_of_uuid(s: Seq<char>)
    requires
        is_uuid_text(s),
    ensures
        is_control_id(control_id_of(s)),
{
    lemma_uuid_prefix(s, 36);
    assert(s.take(36) =~= s);
}

/// Draws a control id from a UUID text.
pub fn mint_control_id(uuid: &str) -> (r: String)
    ensures
        r@ == control_id_of(uuid@),
{
    let v = to_chars(uuid);
    let mut out: String = String::new();
    let mut count: usize = 0;
    let mut i: usize = 0;
    assert(v@.take(0) =~= Seq::<char>::empty());
    while i < v.len() && count < 20
        invariant
            i <= v@.len(),
            count <= 20,
            count == out@.len(),
            out@ == without_hyphens(v@.take(i as int)),
        decreases v@.len() - i,
    {
        proof {
            assert(v@.take(i + 1).drop_last() =~= v@.take(i as int));
            assert(v@.take(i + 1).last() == v@[i as int]);
        }
        if v[i] != '-' {
            push_char(&mut out, v[i]);
            count += 1;
        }
        i += 1;
    }
    proof {
        lemma_without_hyphens_prefix(v@, i as int);
        if i == v@.len() {
            assert(v@.take(i as int) =~= v@);
        }
    }
    out
}

/// The hyphen-free form of a prefix is a prefix of the hyphen-free form.
pub proof fn lemma_without_hyphens_prefix(s: Seq<char>, k: int)
    requires
        0 <= k <= s.len(),
    ensures
        without_hyphens(s.take(k)).len() <= without_hyphens(s).len(),
        without_hyphens(s.take(k)) == without_hyphens(s).take(
            without_hyphens(s.take(k)).len() as int,
        ),
    decreases s.len() - k,
{
    if k == s.len() {
        assert(s.take(k) =~= s);
        assert(without_hyphens(s).take(without_hyphens(s).len() as int) =~= without_hyphens(s));
    } else {
        lemma_without_hyphens_prefix(s, k + 1);
        assert(s.take(k + 1).drop_last() =~= s.take(k));
        let a = without_hyphens(s.take(k));
        let b = without_hyphens(s.take(k + 1));
        assert(a =~= b.take(a.len() as int));
        assert(a =~= without_hyphens(s).take(a.len() as int));
    }
}

} // verus!
