//! The toggle engine: a pure text transform that flips the comment state
//! of every line carrying a given address token.
//!
//! A line matches when, after its leading blanks and an optional comment
//! marker with its following blanks, the exact target token stands,
//! followed by at least one blank and one further character.  A matching
//! commented line loses the marker and the blanks after it; a matching
//! active line gains `# ` after its leading blanks.  All other lines pass
//! through unchanged, and the result joins every line with one newline.

use vstd::prelude::*;

use crate::errors::HostsError;
use crate::parser::line_commented;
use crate::text::is_space;
use crate::text::is_space_exec;
use crate::text::join_lines;
use crate::text::join_terminated;
use crate::text::lemma_prefix_len_unique;
use crate::text::split_lines;
use crate::text::split_lines_exec;
use crate::text::str_to_chars;
use crate::text::subvec;
use crate::text::ws_len;

verus! {

/// A usable toggle target: a non-empty token without blanks, comment
/// markers or line breaks, as an address literal always is.
pub open spec fn is_target_token(t: Seq<char>) -> bool {
    t.len() > 0 && forall|i: int|
        0 <= i < t.len() ==> !is_space(#[trigger] t[i]) && t[i] != '#' && t[i] != '\n' && t[i]
            != '\r'
}

/// Whether the body `b` starts with exactly the token `t`, followed by at
/// least one blank and at least one further character.
pub open spec fn body_matches(b: Seq<char>, t: Seq<char>) -> bool {
    b.len() >= t.len() + 2 && b.take(t.len() as int) == t && is_space(b[t.len() as int])
}

/// Index just past the comment marker and the blanks following it.
pub open spec fn marker_end(line: Seq<char>) -> int {
    ws_len(line) + 1 + ws_len(line.skip(ws_len(line) + 1))
}

/// The part of a line against which the target is matched: past the
/// leading blanks, and past the comment marker when there is one.
pub open spec fn line_body(line: Seq<char>) -> Seq<char> {
    if line_commented(line) {
        line.skip(marker_end(line))
    } else {
        line.skip(ws_len(line))
    }
}

/// Whether the line carries the target token.
pub open spec fn line_match(line: Seq<char>, t: Seq<char>) -> bool {
    body_matches(line_body(line), t)
}

/// The line with its comment state flipped when it matches, unchanged
/// otherwise.
pub open spec fn toggle_line(line: Seq<char>, t: Seq<char>) -> Seq<char> {
    if !line_match(line, t) {
        line
    } else if line_commented(line) {
        line.take(ws_len(line)) + line.skip(marker_end(line))
    } else {
        line.take(ws_len(line)) + seq!['#', ' '] + line.skip(ws_len(line))
    }
}

/// Whether any line carries the target.
pub open spec fn any_match(ls: Seq<Seq<char>>, t: Seq<char>) -> bool {
    exists|i: int| 0 <= i < ls.len() && line_match(ls[i], t)
}

pub open spec fn toggle_lines(ls: Seq<Seq<char>>, t: Seq<char>) -> Seq<Seq<char>> {
    ls.map_values(|l: Seq<char>| toggle_line(l, t))
}

/// The whole-content toggle: every line mapped, joined with newlines.
pub open spec fn toggled_content(s: Seq<char>, t: Seq<char>) -> Seq<char> {
    join_terminated(toggle_lines(split_lines(s), t))
}

/// Matching is exact on the whole token: one line cannot carry two
/// different targets, so toggling an address never touches a line whose
/// address merely contains it as a substring.
pub proof fn lemma_exact_token_match(line: Seq<char>, t1: Seq<char>, t2: Seq<char>)
    requires
        is_target_token(t1),
        is_target_token(t2),
        line_match(line, t1),
        line_match(line, t2),
    ensures
        t1 == t2,
{
    let b = line_body(line);
    if t1.len() < t2.len() {
        assert(b.take(t2.len() as int)[t1.len() as int] == b[t1.len() as int]);
        assert(t2[t1.len() as int] == b[t1.len() as int]);
        assert(is_space(t2[t1.len() as int]));
        assert(false);
    }
    if t2.len() < t1.len() {
        assert(b.take(t1.len() as int)[t2.len() as int] == b[t2.len() as int]);
        assert(t1[t2.len() as int] == b[t2.len() as int]);
        assert(is_space(t1[t2.len() as int]));
        assert(false);
    }
    assert forall|k: int| 0 <= k < t1.len() implies t1[k] == t2[k] by {
        assert(b.take(t1.len() as int)[k] == b[k]);
        assert(b.take(t2.len() as int)[k] == b[k]);
    }
    assert(t1 =~= t2);
}

/// A matching line in the form the toggle itself writes: an active line,
/// or a commented one whose marker is exactly `# `.
pub open spec fn canonical_match(line: Seq<char>, t: Seq<char>) -> bool {
    line_match(line, t) && (line_commented(line) ==> marker_end(line) == ws_len(line) + 2 && line[
        ws_len(line) + 1
    ] == ' ')
}

/// A run of blanks before something non-blank fixes `ws_len`.
proof fn lemma_ws_len_concat(p: Seq<char>, q: Seq<char>)
    requires
        forall|j: int| 0 <= j < p.len() ==> is_space(#[trigger] p[j]),
    ensures
        ws_len(p + q) == p.len() + ws_len(q),
    decreases p.len(),
{
    if p.len() == 0 {
        assert(p + q =~= q);
    } else {
        assert((p + q)[0] == p[0]);
        assert((p + q).skip(1) =~= p.skip(1) + q);
        assert forall|j: int| 0 <= j < p.skip(1).len() implies is_space(#[trigger] p.skip(1)[j]) by {
            assert(p.skip(1)[j] == p[j + 1]);
        }
        lemma_ws_len_concat(p.skip(1), q);
    }
}

/// Toggling a canonically matching line yields a canonically matching
/// line of the opposite state, and toggling twice restores the line.
pub proof fn lemma_toggle_line_involutive(line: Seq<char>, t: Seq<char>)
    requires
        is_target_token(t),
        canonical_match(line, t),
    ensures
        line_match(toggle_line(line, t), t),
        canonical_match(toggle_line(line, t), t),
        toggle_line(toggle_line(line, t), t) == line,
{
    let a = ws_len(line);
    crate::text::lemma_prefix_len(line, |c: char| is_space(c));
    let w = line.take(a);
    assert(forall|j: int| 0 <= j < w.len() ==> is_space(#[trigger] w[j])) by {
        assert(forall|j: int| 0 <= j < a ==> #[trigger] w[j] == line[j]);
    }
    if !line_commented(line) {
        let b = line.skip(a);
        assert(b[0] == t[0]) by {
            assert(b.take(t.len() as int)[0] == b[0]);
        }
        assert(!is_space(b[0]) && b[0] != '#');
        let l2 = toggle_line(line, t);
        assert(l2 == w + seq!['#', ' '] + b);
        let q = seq!['#', ' '] + b;
        assert(l2 =~= w + q);
        assert(q[0] == '#');
        assert(ws_len(q) == 0);
        lemma_ws_len_concat(w, q);
        assert(ws_len(l2) == a);
        assert(l2[a] == '#') by {
            assert((w + q)[a] == q[0]);
        }
        assert(line_commented(l2));
        let q2 = l2.skip(a + 1);
        assert(q2 =~= seq![' '] + b);
        lemma_ws_len_concat(seq![' '], b);
        assert(ws_len(b) == 0);
        assert(ws_len(q2) == 1);
        assert(marker_end(l2) == a + 2);
        assert(l2[a + 1] == ' ') by {
            assert((w + q)[a + 1] == q[1]);
        }
        assert(line_body(l2) =~= b);
        assert(line_match(l2, t));
        assert(canonical_match(l2, t));
        let l3 = toggle_line(l2, t);
        assert(l3 == l2.take(a) + l2.skip(marker_end(l2)));
        assert(l2.take(a) =~= w);
        assert(l2.skip(a + 2) =~= b);
        assert(l3 =~= line);
    } else {
        let me = marker_end(line);
        assert(me == a + 2);
        let b = line.skip(me);
        assert(b == line_body(line));
        assert(b[0] == t[0]) by {
            assert(b.take(t.len() as int)[0] == b[0]);
        }
        assert(!is_space(b[0]) && b[0] != '#');
        let l2 = toggle_line(line, t);
        assert(l2 == w + b);
        lemma_ws_len_concat(w, b);
        assert(ws_len(b) == 0);
        assert(ws_len(l2) == a);
        assert(l2[a] == b[0]) by {
            assert((w + b)[a] == b[0]);
        }
        assert(!line_commented(l2));
        assert(line_body(l2) =~= b);
        assert(line_match(l2, t));
        assert(canonical_match(l2, t));
        let l3 = toggle_line(l2, t);
        assert(l3 == l2.take(a) + seq!['#', ' '] + l2.skip(a));
        assert(l2.take(a) =~= w);
        assert(l2.skip(a) =~= b);
        assert(line[a] == '#');
        assert(line[a + 1] == ' ');
        assert(l3 =~= line);
    }
}

/// The all-matches policy: toggling rewrites every line, and every line
/// carrying the target is flipped in the same call — never only the
/// first.
pub proof fn lemma_toggle_all_matches(ls: Seq<Seq<char>>, t: Seq<char>)
    ensures
        toggle_lines(ls, t).len() == ls.len(),
        forall|i: int|
            0 <= i < ls.len() ==> #[trigger] toggle_lines(ls, t)[i] == toggle_line(ls[i], t),
        forall|i: int|
            0 <= i < ls.len() && !line_match(#[trigger] ls[i], t) ==> toggle_lines(ls, t)[i]
                == ls[i],
{
}

/// Toggling never introduces a line break or a carriage return into a
/// line that had none.
proof fn lemma_toggle_line_chars(line: Seq<char>, t: Seq<char>, other: char)
    requires
        forall|j: int| 0 <= j < line.len() ==> line[j] != other,
        other != '#',
        other != ' ',
    ensures
        forall|j: int|
            0 <= j < toggle_line(line, t).len() ==> #[trigger] toggle_line(line, t)[j] != other,
{
    let l2 = toggle_line(line, t);
    if line_match(line, t) {
        crate::text::lemma_prefix_len(line, |c: char| is_space(c));
        let a = ws_len(line);
        if line_commented(line) {
            let me = marker_end(line);
            crate::text::lemma_prefix_len(line.skip(a + 1), |c: char| is_space(c));
            assert(0 <= me <= line.len());
            assert forall|j: int| 0 <= j < l2.len() implies #[trigger] l2[j] != other by {
                if j < a {
                    assert(l2[j] == line.take(a)[j]);
                    assert(line.take(a)[j] == line[j]);
                } else {
                    assert(l2[j] == line.skip(me)[j - a]);
                    assert(line.skip(me)[j - a] == line[j - a + me]);
                }
            }
        } else {
            assert forall|j: int| 0 <= j < l2.len() implies #[trigger] l2[j] != other by {
                if j < a {
                    assert(l2[j] == (line.take(a) + seq!['#', ' '])[j]);
                    assert(line.take(a)[j] == line[j]);
                } else if j < a + 2 {
                    assert(l2[j] == (line.take(a) + seq!['#', ' '])[j]);
                    assert((line.take(a) + seq!['#', ' '])[j] == seq!['#', ' '][j - a]);
                } else {
                    assert(l2[j] == line.skip(a)[j - a - 2]);
                    assert(line.skip(a)[j - a - 2] == line[j - 2]);
                }
            }
        }
    }
}

/// The double-toggle law: on newline-terminated content without carriage
/// returns, where every line carrying the target is canonically formed
/// (active, or commented exactly as `# `), toggling twice restores the
/// content exactly.
pub proof fn lemma_double_toggle_restores(c: Seq<char>, t: Seq<char>)
    requires
        is_target_token(t),
        c.len() == 0 || c.last() == '\n',
        forall|j: int| 0 <= j < c.len() ==> c[j] != '\r',
        any_match(split_lines(c), t),
        forall|i: int|
            0 <= i < split_lines(c).len() && line_match(#[trigger] split_lines(c)[i], t)
                ==> canonical_match(split_lines(c)[i], t),
    ensures
        any_match(split_lines(toggled_content(c, t)), t),
        toggled_content(toggled_content(c, t), t) == c,
{
    let ls = split_lines(c);
    let ls2 = toggle_lines(ls, t);
    let c1 = toggled_content(c, t);
    crate::text::lemma_split_lines_chars(c);
    assert forall|p: int, j: int|
        0 <= p < ls2.len() && 0 <= j < ls2[p].len() implies #[trigger] ls2[p][j] != '\n' && ls2[p][j]
        != '\r' by {
        assert(ls2[p] == toggle_line(ls[p], t));
        lemma_toggle_line_chars(ls[p], t, '\n');
        lemma_toggle_line_chars(ls[p], t, '\r');
    }
    assert forall|p: int| 0 <= p < ls2.len() && ls2[p].len() > 0 implies #[trigger] ls2[p].last()
        != '\r' by {
        assert(ls2[p][ls2[p].len() - 1] != '\r');
    }
    crate::text::lemma_split_of_join(ls2);
    assert(split_lines(c1) == ls2);
    let k = choose|k: int| 0 <= k < ls.len() && line_match(#[trigger] ls[k], t);
    lemma_toggle_line_involutive(ls[k], t);
    assert(ls2[k] == toggle_line(ls[k], t));
    assert(any_match(ls2, t));
    assert forall|i: int| 0 <= i < ls2.len() implies #[trigger] toggle_line(ls2[i], t) == ls[i] by {
        assert(ls2[i] == toggle_line(ls[i], t));
        if line_match(ls[i], t) {
            lemma_toggle_line_involutive(ls[i], t);
        } else {
            assert(ls2[i] == ls[i]);
        }
    }
    assert(toggle_lines(ls2, t) =~= ls);
    crate::text::lemma_join_of_split(c);
    assert(toggled_content(c1, t) == join_terminated(ls));
}

/// Flips one line when it matches, exactly as `toggle_line` says.
fn toggle_line_exec(line: &Vec<char>, t: &Vec<char>) -> (r: (Vec<char>, bool))
    ensures
        r.0@ == toggle_line(line@, t@),
        r.1 == line_match(line@, t@),
{
    let n = line.len();
    let mut a: usize = 0;
    while a < n && is_space_exec(line[a])
        invariant
            a <= n == line.len(),
            forall|j: int| 0 <= j < a ==> is_space(line@[j]),
        decreases n - a,
    {
        a += 1;
    }
    proof {
        lemma_prefix_len_unique(line@, |c: char| is_space(c), a as int);
        assert(ws_len(line@) == a);
    }
    let commented = a < n && line[a] == '#';
    let b0: usize = if commented {
        let mut m: usize = a + 1;
        while m < n && is_space_exec(line[m])
            invariant
                a + 1 <= m <= n == line.len(),
                forall|j: int| a + 1 <= j < m ==> is_space(line@[j]),
            decreases n - m,
        {
            m += 1;
        }
        proof {
            let tail = line@.skip(a + 1);
            assert forall|j: int| 0 <= j < m - (a + 1) implies is_space(#[trigger] tail[j]) by {
                assert(tail[j] == line@[j + a + 1]);
            }
            if m < n {
                assert(tail[m - (a + 1)] == line@[m as int]);
            }
            lemma_prefix_len_unique(tail, |c: char| is_space(c), m - (a + 1));
            assert(marker_end(line@) == m);
        }
        m
    } else {
        a
    };
    let ghost body = line_body(line@);
    proof {
        assert(body == line@.skip(b0 as int));
    }
    let rem = n - b0;
    let tn = t.len();
    let mut matched: bool = false;
    if tn <= rem && rem - tn >= 2 {
        let mut k: usize = 0;
        let mut same: bool = true;
        while k < tn && same
            invariant
                k <= tn == t.len(),
                b0 + tn <= n == line.len(),
                same ==> forall|j: int| 0 <= j < k ==> line@[b0 + j] == t@[j],
                !same ==> !(body.take(tn as int) =~= t@) && body == line@.skip(b0 as int),
                body == line@.skip(b0 as int),
            decreases tn - k, (if same { 1int } else { 0int }),
        {
            if line[b0 + k] != t[k] {
                proof {
                    assert(body.take(tn as int)[k as int] == line@[b0 + k]);
                }
                same = false;
            } else {
                k += 1;
            }
        }
        if same {
            proof {
                assert(body.take(tn as int) =~= t@);
            }
            if is_space_exec(line[b0 + tn]) {
                proof {
                    assert(body[tn as int] == line@[b0 + tn]);
                }
                matched = true;
            } else {
                proof {
                    assert(body[tn as int] == line@[b0 + tn]);
                }
            }
        }
    }
    proof {
        assert(matched == line_match(line@, t@));
    }
    if !matched {
        let out = line.clone();
        proof {
            assert(out@ == toggle_line(line@, t@));
        }
        return (out, false);
    }
    if commented {
        let mut out = subvec(line, 0, a);
        let tail = subvec(line, b0, n);
        crate::text::extend_chars(&mut out, &tail);
        proof {
            assert(out@ =~= line@.take(a as int) + line@.skip(b0 as int));
        }
        (out, true)
    } else {
        let mut out = subvec(line, 0, a);
        out.push('#');
        out.push(' ');
        let tail = subvec(line, a, n);
        crate::text::extend_chars(&mut out, &tail);
        proof {
            assert(out@ =~= line@.take(a as int) + seq!['#', ' '] + line@.skip(a as int));
        }
        (out, true)
    }
}

/// Toggles every line carrying `ip_address` and returns the rewritten
/// content; `NotFound` when no line carries it, in which case nothing is
/// to be written.
pub fn toggle_host_ip_status(content: &str, ip_address: &str) -> (r: Result<String, HostsError>)
    requires
        is_target_token(ip_address@),
    ensures
        match r {
            Ok(out) => any_match(split_lines(content@), ip_address@) && out@ == toggled_content(
                content@,
                ip_address@,
            ),
            Err(e) => e is NotFound && !any_match(split_lines(content@), ip_address@),
        },
{
    let cv = str_to_chars(content);
    let t = str_to_chars(ip_address);
    let ls = split_lines_exec(&cv);
    let ghost lsv = ls@.map_values(|q: Vec<char>| q@);
    let mut out: Vec<Vec<char>> = Vec::new();
    let mut found: bool = false;
    let mut i: usize = 0;
    while i < ls.len()
        invariant
            i <= ls.len(),
            t@ == ip_address@,
            lsv == ls@.map_values(|q: Vec<char>| q@),
            out@.map_values(|q: Vec<char>| q@) == toggle_lines(lsv.take(i as int), ip_address@),
            found == any_match(lsv.take(i as int), ip_address@),
        decreases ls.len() - i,
    {
        proof {
            assert(lsv[i as int] == ls@[i as int]@);
        }
        let (nl, m) = toggle_line_exec(&ls[i], &t);
        proof {
            crate::text::lemma_deep_view_push(out, nl);
        }
        out.push(nl);
        let new_found = found || m;
        proof {
            assert(out@.map_values(|q: Vec<char>| q@) =~= toggle_lines(
                lsv.take(i + 1),
                ip_address@,
            )) by {
                assert(forall|p: int|
                    0 <= p < i + 1 ==> #[trigger] lsv.take(i + 1)[p] == lsv[p]);
                assert(forall|p: int|
                    0 <= p < i ==> #[trigger] lsv.take(i as int)[p] == lsv[p]);
            }
            if m {
                assert(lsv.take(i + 1)[i as int] == lsv[i as int]);
                assert(any_match(lsv.take(i + 1), ip_address@));
            } else if found {
                let j = choose|j: int|
                    0 <= j < lsv.take(i as int).len() && line_match(
                        #[trigger] lsv.take(i as int)[j],
                        ip_address@,
                    );
                assert(lsv.take(i + 1)[j] == lsv.take(i as int)[j]);
                assert(any_match(lsv.take(i + 1), ip_address@));
            } else {
                assert forall|j: int|
                    0 <= j < lsv.take(i + 1).len() implies !line_match(
                        #[trigger] lsv.take(i + 1)[j],
                        ip_address@,
                    ) by {
                    if j < i {
                        assert(lsv.take(i + 1)[j] == lsv.take(i as int)[j]);
                        assert(!any_match(lsv.take(i as int), ip_address@));
                    } else {
                        assert(lsv.take(i + 1)[j] == lsv[i as int]);
                    }
                }
            }
        }
        found = new_found;
        i += 1;
    }
    proof {
        assert(lsv.take(ls.len() as int) =~= lsv);
    }
    if !found {
        return Err(HostsError::NotFound);
    }
    let joined = join_lines(&out);
    Ok(joined)
}

} // verus!
