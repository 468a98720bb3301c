//! The address validator: decides whether a token is a syntactically valid
//! IPv4 or IPv6 address literal.  A pure, total check — no resolution, no
//! reachability.  The accepted grammar is the standard textual form:
//! IPv4 as four decimal octets up to 255 without leading zeros; IPv6 as
//! colon-separated groups of one to four hex digits, at most eight, with
//! one optional `::` standing for the elided zero groups and an optional
//! embedded IPv4 address in the last position.

use vstd::prelude::*;

use crate::text::split_on;
use crate::text::split_on_exec;
use crate::text::subvec;

verus! {

pub open spec fn is_dec_digit(c: char) -> bool {
    '0' as u32 <= c as u32 && c as u32 <= '9' as u32
}

pub open spec fn is_hex_digit(c: char) -> bool {
    is_dec_digit(c) || ('a' as u32 <= c as u32 && c as u32 <= 'f' as u32) || ('A' as u32
        <= c as u32 && c as u32 <= 'F' as u32)
}

pub open spec fn all_dec(s: Seq<char>) -> bool {
    forall|i: int| 0 <= i < s.len() ==> is_dec_digit(s[i])
}

/// The numeric value of a decimal digit string.
pub open spec fn dec_val(s: Seq<char>) -> int
    decreases s.len(),
{
    if s.len() == 0 {
        0
    } else {
        dec_val(s.drop_last()) * 10 + (s.last() as u32 - '0' as u32)
    }
}

/// One decimal octet of an IPv4 address: one to three digits, no leading
/// zero, value at most 255.
pub open spec fn is_octet(s: Seq<char>) -> bool {
    1 <= s.len() <= 3 && all_dec(s) && (s.len() > 1 ==> s[0] != '0') && dec_val(s) <= 255
}

/// A valid IPv4 literal: exactly four octets separated by dots.
pub open spec fn is_ipv4(s: Seq<char>) -> bool {
    let ps = split_on(s, '.');
    ps.len() == 4 && (forall|i: int| 0 <= i < 4 ==> is_octet(ps[i]))
}

/// One IPv6 group: one to four hex digits.
pub open spec fn is_h16(s: Seq<char>) -> bool {
    1 <= s.len() <= 4 && (forall|i: int| 0 <= i < s.len() ==> is_hex_digit(s[i]))
}

pub open spec fn all_h16(ps: Seq<Seq<char>>) -> bool {
    forall|i: int| 0 <= i < ps.len() ==> is_h16(ps[i])
}

/// Index of the first occurrence of two adjacent colons, or `s.len()` when
/// there is none.
pub open spec fn dc_idx(s: Seq<char>) -> int
    decreases s.len(),
{
    if s.len() < 2 {
        s.len() as int
    } else if s[0] == ':' && s[1] == ':' {
        0
    } else {
        1 + dc_idx(s.skip(1))
    }
}

/// Group count of the part before the `::`, or -1 when it is malformed.
/// Only plain hex groups may stand there.
pub open spec fn head_weight(s: Seq<char>) -> int {
    if s.len() == 0 {
        0
    } else {
        let ps = split_on(s, ':');
        if all_h16(ps) {
            ps.len() as int
        } else {
            -1
        }
    }
}

/// Group count of the part after the `::`, or -1 when it is malformed.
/// The last group may be an embedded IPv4 address, which counts double.
pub open spec fn tail_weight(s: Seq<char>) -> int {
    if s.len() == 0 {
        0
    } else {
        let ps = split_on(s, ':');
        if all_h16(ps) {
            ps.len() as int
        } else if all_h16(ps.drop_last()) && is_ipv4(ps.last()) {
            ps.len() as int + 1
        } else {
            -1
        }
    }
}

/// A valid IPv6 literal.  With a `::`, the groups around it must be well
/// formed and amount to at most seven, the elision standing for the rest.
/// Without one, the groups must amount to exactly eight.
pub open spec fn is_ipv6(s: Seq<char>) -> bool {
    let i = dc_idx(s);
    if i + 2 <= s.len() {
        head_weight(s.take(i)) >= 0 && tail_weight(s.skip(i + 2)) >= 0 && head_weight(s.take(i))
            + tail_weight(s.skip(i + 2)) <= 7
    } else {
        let ps = split_on(s, ':');
        (ps.len() == 8 && all_h16(ps)) || (ps.len() == 7 && all_h16(ps.drop_last()) && is_ipv4(
            ps.last(),
        ))
    }
}

/// A valid IP address literal of either family.
pub open spec fn is_valid_ip(s: Seq<char>) -> bool {
    is_ipv4(s) || is_ipv6(s)
}

spec fn pow10(n: nat) -> int
    decreases n,
{
    if n == 0 {
        1
    } else {
        10 * pow10((n - 1) as nat)
    }
}

proof fn lemma_dec_val_range(s: Seq<char>)
    requires
        all_dec(s),
    ensures
        0 <= dec_val(s) < pow10(s.len()),
    decreases s.len(),
{
    if s.len() == 0 {
    } else {
        assert(all_dec(s.drop_last())) by {
            assert(forall|i: int|
                0 <= i < s.drop_last().len() ==> #[trigger] s.drop_last()[i] == s[i]);
        }
        lemma_dec_val_range(s.drop_last());
        assert(is_dec_digit(s.last())) by {
            assert(s.last() == s[s.len() - 1]);
        }
    }
}

fn is_dec_digit_exec(c: char) -> (r: bool)
    ensures
        r == is_dec_digit(c),
{
    let d = c as u32;
    48 <= d && d <= 57
}

fn is_hex_digit_exec(c: char) -> (r: bool)
    ensures
        r == is_hex_digit(c),
{
    let d = c as u32;
    (48 <= d && d <= 57) || (97 <= d && d <= 102) || (65 <= d && d <= 70)
}

fn check_octet(p: &Vec<char>) -> (r: bool)
    ensures
        r == is_octet(p@),
{
    let n = p.len();
    if n < 1 || n > 3 {
        return false;
    }
    let mut i: usize = 0;
    let mut val: u32 = 0;
    while i < n
        invariant
            i <= n == p.len() <= 3,
            forall|j: int| 0 <= j < i ==> is_dec_digit(p@[j]),
            val == dec_val(p@.take(i as int)),
            val <= 999,
        decreases n - i,
    {
        let c = p[i];
        if !is_dec_digit_exec(c) {
            return false;
        }
        proof {
            assert(p@.take(i + 1).drop_last() =~= p@.take(i as int));
            assert(p@.take(i + 1).last() == p@[i as int]);
            assert(forall|j: int| 0 <= j < i + 1 ==> is_dec_digit(p@[j]));
            assert(all_dec(p@.take(i as int))) by {
                assert(forall|j: int|
                    0 <= j < i ==> #[trigger] p@.take(i as int)[j] == p@[j]);
            }
            lemma_dec_val_range(p@.take(i as int));
            assert(pow10(0) == 1 && pow10(1) == 10 && pow10(2) == 100 && pow10(3) == 1000) by {
                reveal_with_fuel(pow10, 4);
            }
        }
        val = val * 10 + (c as u32 - 48);
        i += 1;
    }
    proof {
        assert(p@.take(n as int) =~= p@);
    }
    if n > 1 && p[0] == '0' {
        return false;
    }
    val <= 255
}

fn check_h16(p: &Vec<char>) -> (r: bool)
    ensures
        r == is_h16(p@),
{
    let n = p.len();
    if n < 1 || n > 4 {
        return false;
    }
    let mut i: usize = 0;
    while i < n
        invariant
            i <= n == p.len(),
            forall|j: int| 0 <= j < i ==> is_hex_digit(p@[j]),
        decreases n - i,
    {
        if !is_hex_digit_exec(p[i]) {
            return false;
        }
        i += 1;
    }
    true
}

fn check_ipv4(v: &Vec<char>) -> (r: bool)
    ensures
        r == is_ipv4(v@),
{
    let ps = split_on_exec(v, '.');
    let ghost psv = ps@.map_values(|q: Vec<char>| q@);
    if ps.len() != 4 {
        return false;
    }
    let mut i: usize = 0;
    while i < 4
        invariant
            i <= 4,
            ps.len() == 4,
            psv == ps@.map_values(|q: Vec<char>| q@),
            psv == split_on(v@, '.'),
            forall|j: int| 0 <= j < i ==> is_octet(psv[j]),
        decreases 4 - i,
    {
        if !check_octet(&ps[i]) {
            proof {
                assert(psv[i as int] == ps@[i as int]@);
            }
            return false;
        }
        proof {
            assert(psv[i as int] == ps@[i as int]@);
        }
        i += 1;
    }
    true
}

/// All of the first `n` pieces are hex groups.
fn check_h16_upto(ps: &Vec<Vec<char>>, n: usize) -> (r: bool)
    requires
        n <= ps.len(),
    ensures
        r == all_h16(ps@.map_values(|q: Vec<char>| q@).take(n as int)),
{
    let ghost psv = ps@.map_values(|q: Vec<char>| q@);
    let mut i: usize = 0;
    while i < n
        invariant
            i <= n <= ps.len(),
            psv == ps@.map_values(|q: Vec<char>| q@),
            forall|j: int| 0 <= j < i ==> is_h16(psv[j]),
        decreases n - i,
    {
        if !check_h16(&ps[i]) {
            proof {
                assert(psv.take(n as int)[i as int] == ps@[i as int]@);
            }
            return false;
        }
        proof {
            assert(psv[i as int] == ps@[i as int]@);
        }
        i += 1;
    }
    proof {
        assert(forall|j: int|
            0 <= j < n ==> #[trigger] psv.take(n as int)[j] == psv[j]);
    }
    true
}

/// The group weight of one side of a `::`, when it is well formed and
/// small enough to matter; `None` otherwise.  `allow_v4` admits an
/// embedded IPv4 address in the last group.
fn side_weight(v: &Vec<char>, allow_v4: bool) -> (w: Option<usize>)
    ensures
        allow_v4 ==> match w {
            Some(k) => tail_weight(v@) == k as int && k <= 8,
            None => !(0 <= tail_weight(v@) <= 8),
        },
        !allow_v4 ==> match w {
            Some(k) => head_weight(v@) == k as int && k <= 8,
            None => !(0 <= head_weight(v@) <= 8),
        },
{
    if v.len() == 0 {
        return Some(0);
    }
    let ps = split_on_exec(v, ':');
    let ghost psv = ps@.map_values(|q: Vec<char>| q@);
    let n = ps.len();
    if n > 8 {
        return None;
    }
    let all = check_h16_upto(&ps, n);
    proof {
        assert(psv.take(n as int) =~= psv);
    }
    if all {
        return Some(n);
    }
    if !allow_v4 {
        return None;
    }
    let firsts = check_h16_upto(&ps, n - 1);
    proof {
        assert(psv.take(n - 1 as int) =~= psv.drop_last());
    }
    if !firsts {
        return None;
    }
    let last_v4 = check_ipv4(&ps[n - 1]);
    proof {
        assert(psv.last() == ps@[n - 1]@);
    }
    if !last_v4 {
        return None;
    }
    if n + 1 > 8 {
        return None;
    }
    Some(n + 1)
}

proof fn lemma_dc_idx(s: Seq<char>)
    ensures
        0 <= dc_idx(s) <= s.len(),
        dc_idx(s) + 2 <= s.len() ==> s[dc_idx(s)] == ':' && s[dc_idx(s) + 1] == ':',
        forall|j: int| 0 <= j < dc_idx(s) && j + 2 <= s.len() ==> !(#[trigger] s[j] == ':' && s[j + 1] == ':'),
        dc_idx(s) + 2 > s.len() ==> dc_idx(s) == s.len(),
    decreases s.len(),
{
    if s.len() < 2 {
    } else if s[0] == ':' && s[1] == ':' {
    } else {
        lemma_dc_idx(s.skip(1));
        assert(forall|j: int| 0 <= j < s.skip(1).len() ==> #[trigger] s.skip(1)[j] == s[j + 1]);
        assert forall|j: int|
            0 <= j < dc_idx(s) && j + 2 <= s.len() implies !(#[trigger] s[j] == ':' && s[j + 1]
            == ':') by {
            if j > 0 {
                assert(s.skip(1)[j - 1] == s[j]);
                assert(s.skip(1)[j] == s[j + 1]);
            }
        }
    }
}

proof fn lemma_dc_idx_unique(s: Seq<char>, i: int)
    requires
        0 <= i,
        i + 2 <= s.len(),
        s[i] == ':' && s[i + 1] == ':',
        forall|j: int| 0 <= j < i ==> !(#[trigger] s[j] == ':' && s[j + 1] == ':'),
    ensures
        dc_idx(s) == i,
{
    lemma_dc_idx(s);
    if dc_idx(s) < i {
        assert(!(s[dc_idx(s)] == ':' && s[dc_idx(s) + 1] == ':'));
    }
    if dc_idx(s) > i {
        assert(!(s[i] == ':' && s[i + 1] == ':'));
    }
}

proof fn lemma_dc_idx_none(s: Seq<char>)
    requires
        forall|j: int| 0 <= j && j + 2 <= s.len() ==> !(#[trigger] s[j] == ':' && s[j + 1] == ':'),
    ensures
        dc_idx(s) == s.len(),
{
    lemma_dc_idx(s);
    if dc_idx(s) + 2 <= s.len() {
        assert(!(s[dc_idx(s)] == ':' && s[dc_idx(s) + 1] == ':'));
    }
}

fn check_ipv6(v: &Vec<char>) -> (r: bool)
    ensures
        r == is_ipv6(v@),
{
    let n = v.len();
    let mut i: usize = 0;
    let mut found: bool = false;
    while i + 1 < n && !found
        invariant
            i <= n == v.len(),
            i < n || i == 0,
            !found ==> forall|j: int| 0 <= j < i ==> !(#[trigger] v@[j] == ':' && v@[j + 1] == ':'),
            found ==> i + 2 <= n && v@[i as int] == ':' && v@[i + 1] == ':' && forall|j: int|
                0 <= j < i ==> !(#[trigger] v@[j] == ':' && v@[j + 1] == ':'),
        decreases n - i, (if found { 0int } else { 1int }),
    {
        if v[i] == ':' && v[i + 1] == ':' {
            found = true;
        } else {
            i += 1;
        }
    }
    if found {
        proof {
            lemma_dc_idx_unique(v@, i as int);
        }
        let head = subvec(v, 0, i);
        let tail = subvec(v, i + 2, n);
        proof {
            assert(head@ =~= v@.take(i as int));
            assert(tail@ =~= v@.skip(i + 2));
        }
        let hw = side_weight(&head, false);
        let tw = side_weight(&tail, true);
        match (hw, tw) {
            (Some(a), Some(b)) => a <= 7 && b <= 7 && a + b <= 7,
            _ => false,
        }
    } else {
        proof {
            lemma_dc_idx_none(v@);
        }
        let ps = split_on_exec(v, ':');
        let ghost psv = ps@.map_values(|q: Vec<char>| q@);
        let n = ps.len();
        if n == 8 {
            let r = check_h16_upto(&ps, 8);
            proof {
                assert(psv.take(8) =~= psv);
            }
            r
        } else if n == 7 {
            let firsts = check_h16_upto(&ps, 6);
            proof {
                assert(psv.take(6) =~= psv.drop_last());
            }
            if !firsts {
                return false;
            }
            let r = check_ipv4(&ps[6]);
            proof {
                assert(psv.last() == ps@[6]@);
            }
            r
        } else {
            false
        }
    }
}

/// Whether the token `v` is a valid IPv4 or IPv6 address literal.
pub fn validate_address_chars(v: &Vec<char>) -> (r: bool)
    ensures
        r == is_valid_ip(v@),
{
    if check_ipv4(v) {
        true
    } else {
        check_ipv6(v)
    }
}

/// Whether `s` is a valid IPv4 or IPv6 address literal.
pub fn is_valid_address(s: &str) -> (r: bool)
    ensures
        r == is_valid_ip(s@),
{
    let v = crate::text::str_to_chars(s);
    validate_address_chars(&v)
}

} // verus!
