//! The validation grammars: the shape a phone-number string must have, the
//! shape an email address must have, and decimal parsing of digit strings.
//! The grammars are fixed, process-wide policy. Each shape is written down
//! as a spec predicate, and each executable matcher is proved to decide it.
//!
//! The email shape is anchored only at the start of the string: a well-formed
//! prefix is accepted even when arbitrary text follows it. The phone shape is
//! not anchored at all: the string must merely contain `49` followed by nine
//! or ten decimal digits. Both mirror the store's long-standing acceptance
//! behavior and are kept deliberately.

use vstd::prelude::*;

verus! {

/// A decimal digit `0`..=`9`.
pub open spec fn is_digit(c: char) -> bool {
    ('0' as u32) <= (c as u32) && (c as u32) <= ('9' as u32)
}

/// A lowercase ASCII letter `a`..=`z`.
pub open spec fn is_lower(c: char) -> bool {
    ('a' as u32) <= (c as u32) && (c as u32) <= ('z' as u32)
}

/// A lowercase letter or digit: the characters a domain label is made of.
pub open spec fn is_alnum(c: char) -> bool {
    is_lower(c) || is_digit(c)
}

/// A label separator inside the domain part.
pub open spec fn is_sep(c: char) -> bool {
    c == '-' || c == '.'
}

/// A character the local part of an email may start and end with.
pub open spec fn is_local_char(c: char) -> bool {
    is_lower(c) || is_digit(c) || c == '_' || c == '+'
}

/// A character that may occur anywhere in the local part.
pub open spec fn local_or_dot(c: char) -> bool {
    is_local_char(c) || c == '.'
}

/// A character that may occur in the label region of the domain part.
pub open spec fn domain_char(c: char) -> bool {
    is_alnum(c) || is_sep(c)
}

/// The numeric value of a digit character.
pub open spec fn digit_val(c: char) -> nat {
    ((c as u32) - ('0' as u32)) as nat
}

/// The value of a digit string read as a decimal numeral.
pub open spec fn digits_val(s: Seq<char>) -> nat
    decreases s.len(),
{
    if s.len() == 0 {
        0
    } else {
        digits_val(s.drop_last()) * 10 + digit_val(s.last())
    }
}

/// Every character of the sequence is a decimal digit.
pub open spec fn all_digits(s: Seq<char>) -> bool {
    forall|i: int| 0 <= i < s.len() ==> is_digit(s[i])
}

/// The sequence with one optional leading plus sign removed, the sign
/// standard decimal parsing accepts.
pub open spec fn strip_sign(s: Seq<char>) -> Seq<char> {
    if s.len() > 0 && s[0] == '+' {
        s.drop_first()
    } else {
        s
    }
}

/// Whether the string is a decimal numeral whose value fits in 64 bits:
/// an optional `+`, then one or more digits, with value at most `u64::MAX`.
pub open spec fn parses_to_u64(s: Seq<char>) -> bool {
    let d = strip_sign(s);
    d.len() > 0 && all_digits(d) && digits_val(d) <= u64::MAX as nat
}

/// The value of a string that satisfies [`parses_to_u64`].
pub open spec fn parsed_u64(s: Seq<char>) -> u64 {
    digits_val(strip_sign(s)) as u64
}

/// A numeral never shrinks when digits are appended: the value of a prefix
/// is at most the value of the whole.
proof fn lemma_digits_val_prefix_le(s: Seq<char>, k: int)
    requires
        0 <= k <= s.len(),
    ensures
        digits_val(s.subrange(0, k)) <= digits_val(s),
    decreases s.len(),
{
    if k == s.len() {
        assert(s.subrange(0, k) =~= s);
    } else {
        assert(s.drop_last() =~= s.subrange(0, s.len() - 1));
        lemma_digits_val_prefix_le(s.subrange(0, s.len() - 1), k);
        assert(s.subrange(0, s.len() - 1).subrange(0, k) =~= s.subrange(0, k));
    }
}

/// Reading one more digit multiplies the prefix value by ten and adds it.
proof fn lemma_digits_val_step(s: Seq<char>, k: int)
    requires
        0 <= k < s.len(),
    ensures
        digits_val(s.subrange(0, k + 1)) == digits_val(s.subrange(0, k)) * 10 + digit_val(s[k]),
{
    let t = s.subrange(0, k + 1);
    assert(t.drop_last() =~= s.subrange(0, k));
    assert(t.last() == s[k]);
}

/// Parses a decimal numeral into a `u64`. Returns the value exactly when the
/// whole string is an optionally `+`-signed digit string whose value fits;
/// returns nothing otherwise.
pub fn parse_u64(s: &str) -> (r: Option<u64>)
    ensures
        parses_to_u64(s@) ==> r == Some(parsed_u64(s@)),
        !parses_to_u64(s@) ==> r is None,
{
    let n: usize = s.unicode_len();
    if n == 0 {
        return None;
    }
    let start: usize = if s.get_char(0) == '+' {
        1
    } else {
        0
    };
    let ghost d = strip_sign(s@);
    proof {
        assert(d =~= s@.subrange(start as int, n as int));
    }
    if start == n {
        return None;
    }
    let mut acc: u64 = 0;
    let mut i: usize = start;
    while i < n
        invariant
            start <= i <= n,
            n == s@.len(),
            start < n,
            d == strip_sign(s@),
            d == s@.subrange(start as int, n as int),
            acc == digits_val(d.subrange(0, i - start)),
            all_digits(d.subrange(0, i - start)),
        decreases n - i,
    {
        let c = s.get_char(i);
        let u: u32 = c as u32;
        proof {
            assert(d[i - start] == s@[i as int]);
        }
        if u < ('0' as u32) || u > ('9' as u32) {
            proof {
                assert(!is_digit(d[i - start]));
                assert(!all_digits(d));
                assert(!parses_to_u64(s@));
            }
            return None;
        }
        let dv: u64 = (u - ('0' as u32)) as u64;
        proof {
            lemma_digits_val_step(d, i - start);
        }
        let acc10 = match acc.checked_mul(10) {
            Some(x) => x,
            None => {
                proof {
                    assert(digits_val(d.subrange(0, i - start + 1)) > u64::MAX as nat);
                    lemma_digits_val_prefix_le(d, i - start + 1);
                    assert(digits_val(d) > u64::MAX as nat);
                    assert(!parses_to_u64(s@));
                }
                return None;
            },
        };
        acc = match acc10.checked_add(dv) {
            Some(x) => x,
            None => {
                proof {
                    assert(digits_val(d.subrange(0, i - start + 1)) > u64::MAX as nat);
                    lemma_digits_val_prefix_le(d, i - start + 1);
                    assert(digits_val(d) > u64::MAX as nat);
                    assert(!parses_to_u64(s@));
                }
                return None;
            },
        };
        proof {
            assert(d.subrange(0, i - start + 1) =~= d.subrange(0, i - start).push(d[i - start]));
        }
        i = i + 1;
    }
    proof {
        assert(d.subrange(0, n - start) =~= d);
    }
    Some(acc)
}

/// The phone shape holds at position `i`: the characters `49` followed by at
/// least nine decimal digits, all within the sequence.
pub open spec fn phone_match_at(s: Seq<char>, i: int) -> bool {
    &&& 0 <= i
    &&& i + 11 <= s.len()
    &&& s[i] == '4'
    &&& s[i + 1] == '9'
    &&& forall|j: int| i + 2 <= j < i + 11 ==> is_digit(s[j])
}

/// The phone shape: somewhere in the string, `49` followed by nine (or, a
/// fortiori, ten) decimal digits. The shape is unanchored.
pub open spec fn phone_shape(s: Seq<char>) -> bool {
    exists|i: int| phone_match_at(s, i)
}

/// Decides whether a decimal digit.
fn digit_char(c: char) -> (r: bool)
    ensures
        r == is_digit(c),
{
    ('0' as u32) <= (c as u32) && (c as u32) <= ('9' as u32)
}

/// Decides the phone shape.
pub fn phone_matches(s: &str) -> (r: bool)
    ensures
        r == phone_shape(s@),
{
    let n: usize = s.unicode_len();
    if n < 11 {
        return false;
    }
    let mut i: usize = 0;
    while i <= n - 11
        invariant
            11 <= n == s@.len(),
            i <= n - 10,
            forall|k: int| 0 <= k < i ==> !phone_match_at(s@, k),
        decreases n - i,
    {
        if s.get_char(i) == '4' && s.get_char(i + 1) == '9' {
            let mut j: usize = i + 2;
            let mut digits_ok: bool = true;
            while j < i + 11
                invariant
                    i + 2 <= j <= i + 11 <= n == s@.len(),
                    digits_ok ==> forall|t: int| i + 2 <= t < j ==> is_digit(s@[t]),
                    !digits_ok ==> !phone_match_at(s@, i as int),
                decreases i + 11 - j,
            {
                if !digit_char(s.get_char(j)) {
                    digits_ok = false;
                    proof {
                        assert(!is_digit(s@[j as int]));
                    }
                    j = i + 11;
                } else {
                    j = j + 1;
                }
            }
            if digits_ok {
                proof {
                    assert(phone_match_at(s@, i as int));
                }
                return true;
            }
        }
        i = i + 1;
    }
    proof {
        assert forall|k: int| !phone_match_at(s@, k) by {
            if 0 <= k && k + 11 <= s@.len() {
                assert(k < i);
            }
        }
    }
    false
}

/// A well-formed local part: non-empty, first and last characters from the
/// local alphabet, dots allowed in between.
pub open spec fn is_local_seq(s: Seq<char>) -> bool {
    &&& s.len() >= 1
    &&& is_local_char(s[0])
    &&& is_local_char(s[s.len() - 1])
    &&& forall|i: int| 0 <= i < s.len() ==> local_or_dot(s[i])
}

/// A well-formed run of domain labels: non-empty, beginning and ending with
/// a letter or digit, with single `-` or `.` separators in between.
pub open spec fn is_label_seq(s: Seq<char>) -> bool {
    &&& s.len() >= 1
    &&& is_alnum(s[0])
    &&& is_alnum(s[s.len() - 1])
    &&& forall|i: int| 0 <= i < s.len() ==> domain_char(s[i])
    &&& forall|i: int| 0 <= i < s.len() - 1 ==> !(#[trigger] is_sep(s[i]) && is_sep(s[i + 1]))
}

/// From position `d0`, a run of labels ends with a dot at `p` that is
/// followed by at least two lowercase letters: the top-level label.
pub open spec fn final_dot_ok(s: Seq<char>, d0: int, p: int) -> bool {
    &&& d0 < p
    &&& p + 3 <= s.len()
    &&& is_label_seq(s.subrange(d0, p))
    &&& s[p] == '.'
    &&& is_lower(s[p + 1])
    &&& is_lower(s[p + 2])
}

/// The email shape decomposed at `k` (the `@`) and `p` (the dot before the
/// top-level label): local part, `@`, labels, dot, two letters. Anything
/// after the two letters is unconstrained.
pub open spec fn email_split_at(s: Seq<char>, k: int, p: int) -> bool {
    &&& 1 <= k
    &&& is_local_seq(s.subrange(0, k))
    &&& s[k] == '@'
    &&& final_dot_ok(s, k + 1, p)
}

/// The email shape: some decomposition into local part, `@`, labels, dot and
/// top-level label exists at the start of the string.
pub open spec fn email_shape(s: Seq<char>) -> bool {
    exists|k: int, p: int| email_split_at(s, k, p)
}

/// In any decomposition, the `@` stands at the first position that cannot
/// lie inside the local part; so that position is the only candidate.
proof fn lemma_split_pos_unique(s: Seq<char>, k: int)
    requires
        0 <= k <= s.len(),
        forall|j: int| 0 <= j < k ==> local_or_dot(s[j]),
        k < s.len() ==> !local_or_dot(s[k]),
    ensures
        forall|kk: int, pp: int| email_split_at(s, kk, pp) ==> kk == k,
{
    assert forall|kk: int, pp: int| email_split_at(s, kk, pp) implies kk == k by {
        let loc = s.subrange(0, kk);
        assert(kk + 1 < pp && pp + 3 <= s.len());
        if kk < k {
            assert(local_or_dot(s[kk]));
            assert(s[kk] == '@');
            assert(!local_or_dot('@'));
        } else if kk > k {
            assert(k < s.len());
            assert(local_or_dot(loc[k]));
            assert(loc[k] == s[k]);
        }
    }
}

/// A label run stays well formed when a letter or digit is appended.
proof fn lemma_label_push_alnum(t: Seq<char>, c: char)
    requires
        is_label_seq(t),
        is_alnum(c),
    ensures
        is_label_seq(t.push(c)),
{
    let t2 = t.push(c);
    assert(t2[t2.len() - 1] == c);
    assert(t2[0] == t[0]);
    assert forall|i: int| 0 <= i < t2.len() implies domain_char(t2[i]) by {
        if i < t.len() {
            assert(t2[i] == t[i]);
        }
    }
    assert forall|i: int| 0 <= i < t2.len() - 1 implies !(#[trigger] is_sep(t2[i]) && is_sep(
        t2[i + 1],
    )) by {
        if i + 1 < t.len() {
            assert(t2[i] == t[i] && t2[i + 1] == t[i + 1]);
        } else {
            assert(t2[i + 1] == c);
            assert(!is_sep(c));
        }
    }
}

/// A label run stays well formed when a separator and then a letter or digit
/// are appended.
proof fn lemma_label_push_sep(t: Seq<char>, c1: char, c2: char)
    requires
        is_label_seq(t),
        is_sep(c1),
        is_alnum(c2),
    ensures
        is_label_seq(t.push(c1).push(c2)),
{
    let t2 = t.push(c1).push(c2);
    assert(t2.len() == t.len() + 2);
    assert(t2[t2.len() - 1] == c2);
    assert(t2[t2.len() - 2] == c1);
    assert(t2[0] == t[0]);
    assert forall|i: int| 0 <= i < t2.len() implies domain_char(t2[i]) by {
        if i < t.len() {
            assert(t2[i] == t[i]);
        }
    }
    assert forall|i: int| 0 <= i < t2.len() - 1 implies !(#[trigger] is_sep(t2[i]) && is_sep(
        t2[i + 1],
    )) by {
        if i + 1 < t.len() {
            assert(t2[i] == t[i] && t2[i + 1] == t[i + 1]);
        } else if i + 1 == t.len() {
            assert(t2[i] == t[t.len() - 1]);
            assert(is_alnum(t[t.len() - 1]));
            assert(!is_sep(t[t.len() - 1]));
        } else {
            assert(t2[i + 1] == c2);
            assert(!is_sep(c2));
        }
    }
}

/// Decides whether a lowercase letter.
fn lower_char(c: char) -> (r: bool)
    ensures
        r == is_lower(c),
{
    ('a' as u32) <= (c as u32) && (c as u32) <= ('z' as u32)
}

/// Decides whether a letter or digit.
fn alnum_char(c: char) -> (r: bool)
    ensures
        r == is_alnum(c),
{
    lower_char(c) || digit_char(c)
}

/// Decides whether a local-part endpoint character.
fn local_char(c: char) -> (r: bool)
    ensures
        r == is_local_char(c),
{
    lower_char(c) || digit_char(c) || c == '_' || c == '+'
}

/// Decides whether a character that may occur inside the local part.
fn localdot_char(c: char) -> (r: bool)
    ensures
        r == local_or_dot(c),
{
    local_char(c) || c == '.'
}

/// Decides the email shape.
pub fn email_matches(s: &str) -> (r: bool)
    ensures
        r == email_shape(s@),
{
    let n: usize = s.unicode_len();
    let mut k: usize = 0;
    while k < n && localdot_char(s.get_char(k))
        invariant
            k <= n,
            n == s@.len(),
            forall|j: int| 0 <= j < k ==> local_or_dot(s@[j]),
        decreases n - k,
    {
        k = k + 1;
    }
    proof {
        lemma_split_pos_unique(s@, k as int);
    }
    if k == 0 || k == n {
        return false;
    }
    if s.get_char(k) != '@' {
        return false;
    }
    if !local_char(s.get_char(0)) {
        return false;
    }
    if !local_char(s.get_char(k - 1)) {
        return false;
    }
    proof {
        assert(is_local_seq(s@.subrange(0, k as int)));
    }
    let d0: usize = k + 1;
    if d0 == n {
        return false;
    }
    if !alnum_char(s.get_char(d0)) {
        return false;
    }
    let mut j: usize = d0 + 1;
    proof {
        assert(s@.subrange(d0 as int, d0 as int + 1) =~= Seq::empty().push(s@[d0 as int]));
        assert(is_label_seq(s@.subrange(d0 as int, j as int)));
    }
    while j < n
        invariant
            n == s@.len(),
            1 <= k,
            k + 1 == d0,
            d0 < n,
            d0 + 1 <= j <= n,
            is_local_seq(s@.subrange(0, k as int)),
            s@[k as int] == '@',
            forall|jj: int| 0 <= jj < k ==> local_or_dot(s@[jj]),
            is_label_seq(s@.subrange(d0 as int, j as int)),
            forall|pp: int| d0 <= pp < j ==> !final_dot_ok(s@, d0 as int, pp),
        decreases n - j,
    {
        let c = s.get_char(j);
        if alnum_char(c) {
            proof {
                lemma_label_push_alnum(s@.subrange(d0 as int, j as int), c);
                assert(s@.subrange(d0 as int, j as int + 1) =~= s@.subrange(
                    d0 as int,
                    j as int,
                ).push(c));
                assert(!final_dot_ok(s@, d0 as int, j as int));
            }
            j = j + 1;
        } else if c == '.' {
            if n - j > 2 {
                let t1 = s.get_char(j + 1);
                let t2 = s.get_char(j + 2);
                if lower_char(t1) && lower_char(t2) {
                    proof {
                        assert(final_dot_ok(s@, d0 as int, j as int));
                        assert(email_split_at(s@, k as int, j as int));
                    }
                    return true;
                }
            }
            if j + 1 < n && alnum_char(s.get_char(j + 1)) {
                proof {
                    lemma_label_push_sep(s@.subrange(d0 as int, j as int), c, s@[j as int + 1]);
                    assert(s@.subrange(d0 as int, j as int + 2) =~= s@.subrange(
                        d0 as int,
                        j as int,
                    ).push(c).push(s@[j as int + 1]));
                    assert(!final_dot_ok(s@, d0 as int, j as int));
                    assert(s@.subrange(d0 as int, j as int + 1).last() == c);
                    assert(!is_alnum('.'));
                    assert(!final_dot_ok(s@, d0 as int, j as int + 1));
                }
                j = j + 2;
            } else {
                proof {
                    lemma_split_pos_unique(s@, k as int);
                    assert forall|kk: int, pp: int| !email_split_at(s@, kk, pp) by {
                        if email_split_at(s@, kk, pp) {
                            assert(kk == k);
                            assert(final_dot_ok(s@, d0 as int, pp));
                            if pp == j + 1 {
                                assert(s@.subrange(d0 as int, pp).last() == s@[j as int]);
                                assert(!is_alnum('.'));
                            } else if pp > j + 1 {
                                assert(pp < n);
                                let lab = s@.subrange(d0 as int, pp);
                                assert(lab[j - d0] == s@[j as int]);
                                assert(lab[j + 1 - d0] == s@[j as int + 1]);
                                assert(domain_char(lab[j + 1 - d0]));
                                assert(is_sep(lab[j - d0]));
                                assert(!(is_sep(lab[j - d0]) && is_sep(lab[j + 1 - d0])));
                            }
                        }
                    }
                }
                return false;
            }
        } else if c == '-' {
            if j + 1 < n && alnum_char(s.get_char(j + 1)) {
                proof {
                    lemma_label_push_sep(s@.subrange(d0 as int, j as int), c, s@[j as int + 1]);
                    assert(s@.subrange(d0 as int, j as int + 2) =~= s@.subrange(
                        d0 as int,
                        j as int,
                    ).push(c).push(s@[j as int + 1]));
                    assert(!final_dot_ok(s@, d0 as int, j as int));
                    assert(s@.subrange(d0 as int, j as int + 1).last() == c);
                    assert(!is_alnum('-'));
                    assert(!final_dot_ok(s@, d0 as int, j as int + 1));
                }
                j = j + 2;
            } else {
                proof {
                    lemma_split_pos_unique(s@, k as int);
                    assert forall|kk: int, pp: int| !email_split_at(s@, kk, pp) by {
                        if email_split_at(s@, kk, pp) {
                            assert(kk == k);
                            assert(final_dot_ok(s@, d0 as int, pp));
                            if pp == j + 1 {
                                assert(s@.subrange(d0 as int, pp).last() == s@[j as int]);
                                assert(!is_alnum('-'));
                            } else if pp > j + 1 {
                                assert(pp < n);
                                let lab = s@.subrange(d0 as int, pp);
                                assert(lab[j - d0] == s@[j as int]);
                                assert(lab[j + 1 - d0] == s@[j as int + 1]);
                                assert(domain_char(lab[j + 1 - d0]));
                                assert(is_sep(lab[j - d0]));
                                assert(!(is_sep(lab[j - d0]) && is_sep(lab[j + 1 - d0])));
                            }
                        }
                    }
                }
                return false;
            }
        } else {
            proof {
                lemma_split_pos_unique(s@, k as int);
                assert forall|kk: int, pp: int| !email_split_at(s@, kk, pp) by {
                    if email_split_at(s@, kk, pp) {
                        assert(kk == k);
                        assert(final_dot_ok(s@, d0 as int, pp));
                        if pp > j {
                            let lab = s@.subrange(d0 as int, pp);
                            assert(lab[j - d0] == s@[j as int]);
                            assert(domain_char(lab[j - d0]));
                        }
                    }
                }
            }
            return false;
        }
    }
    proof {
        lemma_split_pos_unique(s@, k as int);
        assert forall|kk: int, pp: int| !email_split_at(s@, kk, pp) by {
            if email_split_at(s@, kk, pp) {
                assert(kk == k);
                assert(final_dot_ok(s@, d0 as int, pp));
                assert(pp < n);
            }
        }
    }
    false
}

} // verus!
