//! The entry parser: turns file content into an ordered sequence of
//! structured host entries, tolerant of comments and blank lines.
//!
//! Per physical line: a line whose first non-blank character is the
//! comment marker is a disabled candidate, read past the leading run of
//! markers and blanks; an active line is truncated at its first inline
//! marker.  The first blank-separated token must be a valid IP address
//! and at least one host name must follow, else the line yields no entry.

use vstd::prelude::*;

use crate::address::is_valid_ip;
use crate::address::validate_address_chars;
use crate::errors::HostsError;
use crate::text::chars_to_string;
use crate::text::idx_of;
use crate::text::is_space;
use crate::text::is_space_exec;
use crate::text::lemma_idx_of_unique;
use crate::text::lemma_prefix_len_unique;
use crate::text::prefix_len;
use crate::text::split_lines;
use crate::text::split_lines_exec;
use crate::text::str_eq;
use crate::text::str_to_chars;
use crate::text::subvec;
use crate::text::ws_len;
use crate::text::ws_tokens;
use crate::text::ws_tokens_exec;

verus! {

/// One parsed hosts-file line: a validated address, the host names in
/// their original order, the exact original line text, and whether the
/// line was active (not comment-prefixed) when parsed.
#[derive(Debug, Clone)]
pub struct HostEntry {
    pub ip: String,
    pub hostnames: Vec<String>,
    pub line: String,
    pub enabled: bool,
}

/// The mathematical model of a parsed entry.
pub struct HostEntryModel {
    pub ip: Seq<char>,
    pub hostnames: Seq<Seq<char>>,
    pub line: Seq<char>,
    pub enabled: bool,
}

impl View for HostEntry {
    type V = HostEntryModel;

    open spec fn view(&self) -> HostEntryModel {
        HostEntryModel {
            ip: self.ip@,
            hostnames: self.hostnames@.map_values(|h: String| h@),
            line: self.line@,
            enabled: self.enabled,
        }
    }
}

/// Whether the first non-blank character of `line` is the comment marker.
pub open spec fn line_commented(line: Seq<char>) -> bool {
    ws_len(line) < line.len() && line[ws_len(line)] == '#'
}

/// Length of the leading run of comment markers and blanks.
pub open spec fn marker_run_len(line: Seq<char>) -> int {
    prefix_len(line, |c: char| c == '#' || is_space(c))
}

/// The candidate text of a line: past the leading markers and blanks when
/// the line is commented, before the first inline marker otherwise.
pub open spec fn effective_text(line: Seq<char>) -> Seq<char> {
    if line_commented(line) {
        line.skip(marker_run_len(line))
    } else {
        line.take(idx_of(line, '#'))
    }
}

/// The entry a single line yields, if any.  A line is an entry exactly
/// when its candidate text starts with a valid IP address token followed
/// by at least one host name.
pub open spec fn parse_line(line: Seq<char>) -> Option<HostEntryModel> {
    let toks = ws_tokens(effective_text(line));
    if toks.len() >= 2 && is_valid_ip(toks[0]) {
        Some(
            HostEntryModel {
                ip: toks[0],
                hostnames: toks.skip(1),
                line: line,
                enabled: !line_commented(line),
            },
        )
    } else {
        None
    }
}

/// The entries of a sequence of lines, in first-occurrence order.
pub open spec fn parse_lines(ls: Seq<Seq<char>>) -> Seq<HostEntryModel>
    decreases ls.len(),
{
    if ls.len() == 0 {
        seq![]
    } else {
        match parse_line(ls[0]) {
            Some(e) => seq![e] + parse_lines(ls.skip(1)),
            None => parse_lines(ls.skip(1)),
        }
    }
}

/// The entries of whole file content.
pub open spec fn parse_content(s: Seq<char>) -> Seq<HostEntryModel> {
    parse_lines(split_lines(s))
}

proof fn lemma_parse_lines_invariant(ls: Seq<Seq<char>>)
    ensures
        forall|i: int|
            0 <= i < parse_lines(ls).len() ==> is_valid_ip(#[trigger] parse_lines(ls)[i].ip)
                && parse_lines(ls)[i].hostnames.len() >= 1,
    decreases ls.len(),
{
    if ls.len() == 0 {
    } else {
        lemma_parse_lines_invariant(ls.skip(1));
        let rest = parse_lines(ls.skip(1));
        match parse_line(ls[0]) {
            Some(e) => {
                assert forall|i: int|
                    0 <= i < parse_lines(ls).len() implies is_valid_ip(
                    #[trigger] parse_lines(ls)[i].ip,
                ) && parse_lines(ls)[i].hostnames.len() >= 1 by {
                    if i == 0 {
                        assert(parse_lines(ls)[0] == e);
                    } else {
                        assert(parse_lines(ls)[i] == rest[i - 1]);
                    }
                }
            },
            None => {
            },
        }
    }
}

/// The data-model invariant of parsing: every entry's address is a valid
/// IP literal, and no entry is without host names.
pub proof fn lemma_parse_entries_invariant(s: Seq<char>)
    ensures
        forall|i: int|
            0 <= i < parse_content(s).len() ==> is_valid_ip(#[trigger] parse_content(s)[i].ip)
                && parse_content(s)[i].hostnames.len() >= 1,
{
    lemma_parse_lines_invariant(split_lines(s));
}

/// The enabled flag of the first entry carrying `ip`, if any.
pub open spec fn status_of(es: Seq<HostEntryModel>, ip: Seq<char>) -> Option<bool>
    decreases es.len(),
{
    if es.len() == 0 {
        None
    } else if es[0].ip == ip {
        Some(es[0].enabled)
    } else {
        status_of(es.skip(1), ip)
    }
}

/// Parses one line into an entry, exactly as `parse_line` says.
fn parse_line_exec(line: &Vec<char>) -> (r: Option<HostEntry>)
    ensures
        match r {
            Some(e) => parse_line(line@) == Some(e@),
            None => parse_line(line@) is None,
        },
{
    let n = line.len();
    let mut a: usize = 0;
    while a < n && is_space_exec(line[a])
        invariant
            a <= n == line.len(),
            forall|j: int| 0 <= j < a ==> is_space(line@[j]),
        decreases n - a,
    {
        a += 1;
    }
    proof {
        lemma_prefix_len_unique(line@, |c: char| is_space(c), a as int);
        assert(ws_len(line@) == a);
    }
    let commented = a < n && line[a] == '#';
    let eff: Vec<char> = if commented {
        let mut m: usize = 0;
        while m < n && (line[m] == '#' || is_space_exec(line[m]))
            invariant
                m <= n == line.len(),
                forall|j: int| 0 <= j < m ==> line@[j] == '#' || is_space(line@[j]),
            decreases n - m,
        {
            m += 1;
        }
        proof {
            lemma_prefix_len_unique(line@, |c: char| c == '#' || is_space(c), m as int);
            assert(marker_run_len(line@) == m);
        }
        subvec(line, m, n)
    } else {
        let mut h: usize = 0;
        while h < n && line[h] != '#'
            invariant
                h <= n == line.len(),
                forall|j: int| 0 <= j < h ==> line@[j] != '#',
            decreases n - h,
        {
            h += 1;
        }
        proof {
            lemma_idx_of_unique(line@, '#', h as int);
        }
        subvec(line, 0, h)
    };
    proof {
        assert(eff@ == effective_text(line@));
    }
    let toks = ws_tokens_exec(&eff);
    let ghost toksv = toks@.map_values(|q: Vec<char>| q@);
    if toks.len() < 2 {
        return None;
    }
    proof {
        assert(toksv[0] == toks@[0]@);
    }
    if !validate_address_chars(&toks[0]) {
        return None;
    }
    let ip = chars_to_string(&toks[0]);
    let mut hostnames: Vec<String> = Vec::new();
    let mut i: usize = 1;
    while i < toks.len()
        invariant
            1 <= i <= toks.len(),
            toksv == toks@.map_values(|q: Vec<char>| q@),
            hostnames@.map_values(|h: String| h@) == toksv.subrange(1, i as int),
        decreases toks.len() - i,
    {
        proof {
            assert(toksv[i as int] == toks@[i as int]@);
        }
        let h = chars_to_string(&toks[i]);
        proof {
            assert(hostnames@.push(h).map_values(|x: String| x@) =~= hostnames@.map_values(
                |x: String| x@,
            ).push(h@));
        }
        hostnames.push(h);
        i += 1;
        proof {
            assert(hostnames@.map_values(|x: String| x@) =~= toksv.subrange(1, i as int));
        }
    }
    let raw = chars_to_string(line);
    let e = HostEntry { ip, hostnames, line: raw, enabled: !commented };
    proof {
        assert(toksv.subrange(1, toks.len() as int) =~= toksv.skip(1));
        assert(e@.ip == toksv[0] && e@.hostnames == toksv.skip(1) && e@.line == line@ && e@.enabled
            == !line_commented(line@));
    }
    Some(e)
}

/// Parses whole file content into its entries, exactly as `parse_content`
/// says: one entry per valid line, in file order, duplicates retained.
pub fn parse_hosts_content(content: &str) -> (r: Vec<HostEntry>)
    ensures
        r@.map_values(|e: HostEntry| e@) == parse_content(content@),
{
    let chars = str_to_chars(content);
    let ls = split_lines_exec(&chars);
    let ghost lsv = ls@.map_values(|q: Vec<char>| q@);
    let mut entries: Vec<HostEntry> = Vec::new();
    let mut i: usize = 0;
    proof {
        assert(lsv.skip(0) =~= lsv);
        assert(entries@.map_values(|e: HostEntry| e@) + parse_lines(lsv) =~= parse_lines(lsv));
    }
    while i < ls.len()
        invariant
            i <= ls.len(),
            lsv == ls@.map_values(|q: Vec<char>| q@),
            parse_lines(lsv) == entries@.map_values(|e: HostEntry| e@) + parse_lines(
                lsv.skip(i as int),
            ),
        decreases ls.len() - i,
    {
        proof {
            assert(lsv[i as int] == ls@[i as int]@);
            assert(lsv.skip(i as int)[0] == lsv[i as int]);
            assert(lsv.skip(i as int).skip(1) =~= lsv.skip(i + 1));
        }
        match parse_line_exec(&ls[i]) {
            Some(e) => {
                proof {
                    let ghost old_map = entries@.map_values(|x: HostEntry| x@);
                    assert(entries@.push(e).map_values(|x: HostEntry| x@) =~= old_map.push(e@));
                }
                entries.push(e);
                proof {
                    assert(parse_lines(lsv) =~= entries@.map_values(|x: HostEntry| x@)
                        + parse_lines(lsv.skip(i + 1)));
                }
            },
            None => {
                proof {
                    assert(parse_lines(lsv) =~= entries@.map_values(|x: HostEntry| x@)
                        + parse_lines(lsv.skip(i + 1)));
                }
            },
        }
        i += 1;
    }
    proof {
        assert(lsv.skip(ls.len() as int) =~= Seq::<Seq<char>>::empty());
        assert(entries@.map_values(|e: HostEntry| e@) + parse_lines(lsv.skip(ls.len() as int))
            =~= entries@.map_values(|e: HostEntry| e@));
    }
    entries
}

/// Looks up the enabled flag of the first entry whose address is exactly
/// `ip_address`; `NotFound` when no entry carries it.
pub fn get_ip_status(content: &str, ip_address: &str) -> (r: Result<bool, HostsError>)
    ensures
        match r {
            Ok(b) => status_of(parse_content(content@), ip_address@) == Some(b),
            Err(e) => e is NotFound && status_of(parse_content(content@), ip_address@) is None,
        },
{
    let entries = parse_hosts_content(content);
    let ghost es = entries@.map_values(|e: HostEntry| e@);
    let mut i: usize = 0;
    proof {
        assert(es.skip(0) =~= es);
    }
    while i < entries.len()
        invariant
            i <= entries.len(),
            es == entries@.map_values(|e: HostEntry| e@),
            es == parse_content(content@),
            status_of(es, ip_address@) == status_of(es.skip(i as int), ip_address@),
            forall|j: int| 0 <= j < i ==> #[trigger] es[j].ip != ip_address@,
        decreases entries.len() - i,
    {
        proof {
            assert(es[i as int] == entries@[i as int]@);
            assert(es.skip(i as int)[0] == es[i as int]);
            assert(es.skip(i as int).skip(1) =~= es.skip(i + 1));
        }
        if str_eq(entries[i].ip.as_str(), ip_address) {
            return Ok(entries[i].enabled);
        }
        i += 1;
    }
    proof {
        assert(es.skip(entries.len() as int) =~= Seq::<HostEntryModel>::empty());
    }
    Err(HostsError::NotFound)
}

} // verus!
