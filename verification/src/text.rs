//! Character-sequence utilities shared by the parser and the toggle engine:
//! blank-space classification, splitting at a separator, splitting into
//! physical lines, and joining lines back into newline-terminated content.

use vstd::prelude::*;

verus! {

/// The characters this library treats as blank space inside a line:
/// the space and the horizontal tab.
pub open spec fn is_space(c: char) -> bool {
    c == ' ' || c == '\t'
}

/// Index of the first occurrence of `c` in `s`, or `s.len()` when `c`
/// does not occur.
pub open spec fn idx_of(s: Seq<char>, c: char) -> int
    decreases s.len(),
{
    if s.len() == 0 {
        0
    } else if s[0] == c {
        0
    } else {
        1 + idx_of(s.skip(1), c)
    }
}

pub proof fn lemma_idx_of(s: Seq<char>, c: char)
    ensures
        0 <= idx_of(s, c) <= s.len(),
        idx_of(s, c) < s.len() ==> s[idx_of(s, c)] == c,
        forall|j: int| 0 <= j < idx_of(s, c) ==> s[j] != c,
    decreases s.len(),
{
    if s.len() == 0 {
    } else if s[0] == c {
    } else {
        lemma_idx_of(s.skip(1), c);
        assert forall|j: int| 0 <= j < idx_of(s, c) implies s[j] != c by {
            if j > 0 {
                assert(s.skip(1)[j - 1] == s[j]);
            }
        }
    }
}

/// The first index `i` such that no `c` occurs before it, and either `i`
/// is the end or `c` stands at `i`, is exactly `idx_of`.
pub proof fn lemma_idx_of_unique(s: Seq<char>, c: char, i: int)
    requires
        0 <= i <= s.len(),
        i < s.len() ==> s[i] == c,
        forall|j: int| 0 <= j < i ==> s[j] != c,
    ensures
        idx_of(s, c) == i,
{
    lemma_idx_of(s, c);
    if idx_of(s, c) < i {
        assert(s[idx_of(s, c)] == c);
    }
}

/// `s` split at every occurrence of `sep`.  Empty pieces are kept, so the
/// result always holds at least one piece, and no piece contains `sep`.
pub open spec fn split_on(s: Seq<char>, sep: char) -> Seq<Seq<char>>
    decreases s.len(),
{
    let i = idx_of(s, sep);
    if 0 <= i < s.len() {
        seq![s.take(i)] + split_on(s.skip(i + 1), sep)
    } else {
        seq![s]
    }
}

pub proof fn lemma_split_on_basic(s: Seq<char>, sep: char)
    ensures
        split_on(s, sep).len() >= 1,
        forall|p: int, j: int|
            0 <= p < split_on(s, sep).len() && 0 <= j < split_on(s, sep)[p].len()
                ==> split_on(s, sep)[p][j] != sep,
    decreases s.len(),
{
    lemma_idx_of(s, sep);
    let i = idx_of(s, sep);
    if 0 <= i < s.len() {
        lemma_split_on_basic(s.skip(i + 1), sep);
        let r = split_on(s, sep);
        let rest = split_on(s.skip(i + 1), sep);
        assert forall|p: int, j: int|
            0 <= p < r.len() && 0 <= j < r[p].len() implies r[p][j] != sep by {
            if p == 0 {
                assert(r[0] == s.take(i));
                assert(s.take(i)[j] == s[j]);
            } else {
                assert(r[p] == rest[p - 1]);
            }
        }
    }
}

/// Every character of every piece occurs in `s` itself.
pub proof fn lemma_split_on_chars(s: Seq<char>, sep: char, other: char)
    requires
        forall|j: int| 0 <= j < s.len() ==> s[j] != other,
    ensures
        forall|p: int, j: int|
            0 <= p < split_on(s, sep).len() && 0 <= j < split_on(s, sep)[p].len()
                ==> split_on(s, sep)[p][j] != other,
    decreases s.len(),
{
    lemma_idx_of(s, sep);
    let i = idx_of(s, sep);
    if 0 <= i < s.len() {
        assert forall|j: int| 0 <= j < s.skip(i + 1).len() implies #[trigger] s.skip(i + 1)[j]
            != other by {
            assert(s.skip(i + 1)[j] == s[j + i + 1]);
        }
        lemma_split_on_chars(s.skip(i + 1), sep, other);
        let r = split_on(s, sep);
        let rest = split_on(s.skip(i + 1), sep);
        assert forall|p: int, j: int|
            0 <= p < r.len() && 0 <= j < r[p].len() implies r[p][j] != other by {
            if p == 0 {
                assert(r[0] == s.take(i));
                assert(s.take(i)[j] == s[j]);
            } else {
                assert(r[p] == rest[p - 1]);
            }
        }
    }
}

/// One trailing carriage return is dropped from a line, as content with
/// CRLF endings yields pieces that end in one.
pub open spec fn strip_cr(l: Seq<char>) -> Seq<char> {
    if l.len() > 0 && l.last() == '\r' {
        l.drop_last()
    } else {
        l
    }
}

/// The physical lines of `s`: the pieces between newline characters,
/// without a final empty piece when `s` ends in a newline, each piece
/// without a trailing carriage return.
pub open spec fn split_lines(s: Seq<char>) -> Seq<Seq<char>> {
    let ps = split_on(s, '\n');
    let kept = if ps.last().len() == 0 {
        ps.drop_last()
    } else {
        ps
    };
    kept.map_values(|l: Seq<char>| strip_cr(l))
}

/// Lines joined back into content, every line followed by one newline.
pub open spec fn join_terminated(ls: Seq<Seq<char>>) -> Seq<char>
    decreases ls.len(),
{
    if ls.len() == 0 {
        seq![]
    } else {
        ls[0] + seq!['\n'] + join_terminated(ls.skip(1))
    }
}

/// Unfolds `split_lines` by one line when a newline occurs in `s`.
pub proof fn lemma_split_lines_step(s: Seq<char>)
    requires
        idx_of(s, '\n') < s.len(),
    ensures
        split_lines(s) == seq![strip_cr(s.take(idx_of(s, '\n')))] + split_lines(
            s.skip(idx_of(s, '\n') + 1),
        ),
{
    let i = idx_of(s, '\n');
    lemma_idx_of(s, '\n');
    let rest = s.skip(i + 1);
    let ps = split_on(s, '\n');
    let qs = split_on(rest, '\n');
    lemma_split_on_basic(rest, '\n');
    assert(ps == seq![s.take(i)] + qs);
    assert(ps.last() == qs.last());
    let kept_s = if ps.last().len() == 0 { ps.drop_last() } else { ps };
    let kept_r = if qs.last().len() == 0 { qs.drop_last() } else { qs };
    assert(kept_s =~= seq![s.take(i)] + kept_r);
    assert(split_lines(s) =~= seq![strip_cr(s.take(i))] + split_lines(rest));
}

/// `split_lines` on content without any newline.
pub proof fn lemma_split_lines_end(s: Seq<char>)
    requires
        idx_of(s, '\n') == s.len(),
    ensures
        s.len() == 0 ==> split_lines(s) == Seq::<Seq<char>>::empty(),
        s.len() > 0 ==> split_lines(s) == seq![strip_cr(s)],
{
    lemma_idx_of(s, '\n');
    let ps = split_on(s, '\n');
    assert(ps == seq![s]);
    if s.len() == 0 {
        assert(ps.last().len() == 0);
        assert(split_lines(s) =~= Seq::<Seq<char>>::empty());
    } else {
        assert(split_lines(s) =~= seq![strip_cr(s)]);
    }
}

/// No line of `split_lines(s)` contains a newline, and when `s` holds no
/// carriage return, none of its lines does either.
pub proof fn lemma_split_lines_chars(s: Seq<char>)
    ensures
        forall|p: int, j: int|
            0 <= p < split_lines(s).len() && 0 <= j < split_lines(s)[p].len()
                ==> split_lines(s)[p][j] != '\n',
        (forall|j: int| 0 <= j < s.len() ==> s[j] != '\r') ==> forall|p: int, j: int|
            0 <= p < split_lines(s).len() && 0 <= j < split_lines(s)[p].len()
                ==> split_lines(s)[p][j] != '\r',
{
    let ps = split_on(s, '\n');
    lemma_split_on_basic(s, '\n');
    let kept = if ps.last().len() == 0 { ps.drop_last() } else { ps };
    assert(forall|p: int| 0 <= p < kept.len() ==> kept[p] == ps[p]);
    assert forall|p: int, j: int|
        0 <= p < split_lines(s).len() && 0 <= j < split_lines(s)[p].len()
            implies split_lines(s)[p][j] != '\n' by {
        assert(split_lines(s)[p] == strip_cr(kept[p]));
        assert(strip_cr(kept[p])[j] == kept[p][j]);
    }
    if forall|j: int| 0 <= j < s.len() ==> s[j] != '\r' {
        lemma_split_on_chars(s, '\n', '\r');
        assert forall|p: int, j: int|
            0 <= p < split_lines(s).len() && 0 <= j < split_lines(s)[p].len()
                implies split_lines(s)[p][j] != '\r' by {
            assert(split_lines(s)[p] == strip_cr(kept[p]));
            assert(strip_cr(kept[p])[j] == kept[p][j]);
        }
    }
}

/// Splitting newline-terminated content recovers exactly the joined lines,
/// provided no line contains a newline or ends in a carriage return.
pub proof fn lemma_split_of_join(ls: Seq<Seq<char>>)
    requires
        forall|p: int, j: int|
            0 <= p < ls.len() && 0 <= j < ls[p].len() ==> ls[p][j] != '\n',
        forall|p: int| 0 <= p < ls.len() && ls[p].len() > 0 ==> ls[p].last() != '\r',
    ensures
        split_lines(join_terminated(ls)) == ls,
    decreases ls.len(),
{
    if ls.len() == 0 {
        lemma_split_lines_end(join_terminated(ls));
    } else {
        let l0 = ls[0];
        let s = join_terminated(ls);
        let rest = join_terminated(ls.skip(1));
        assert(s == l0 + seq!['\n'] + rest);
        assert forall|j: int| 0 <= j < l0.len() implies s[j] != '\n' by {
            assert(s[j] == l0[j]);
        }
        assert(s[l0.len() as int] == '\n');
        lemma_idx_of_unique(s, '\n', l0.len() as int);
        lemma_split_lines_step(s);
        assert(s.take(l0.len() as int) =~= l0);
        assert(strip_cr(l0) == l0);
        assert(s.skip(l0.len() as int + 1) =~= rest);
        assert forall|p: int, j: int|
            0 <= p < ls.skip(1).len() && 0 <= j < ls.skip(1)[p].len()
                implies #[trigger] ls.skip(1)[p][j] != '\n' by {
            assert(ls.skip(1)[p] == ls[p + 1]);
        }
        assert forall|p: int|
            0 <= p < ls.skip(1).len() && ls.skip(1)[p].len() > 0
                implies #[trigger] ls.skip(1)[p].last() != '\r' by {
            assert(ls.skip(1)[p] == ls[p + 1]);
        }
        lemma_split_of_join(ls.skip(1));
        assert(split_lines(s) =~= ls);
    }
}

/// Joining the lines of `s` recovers `s`, provided `s` is empty or ends in
/// a newline and holds no carriage return.
pub proof fn lemma_join_of_split(s: Seq<char>)
    requires
        s.len() == 0 || s.last() == '\n',
        forall|j: int| 0 <= j < s.len() ==> s[j] != '\r',
    ensures
        join_terminated(split_lines(s)) == s,
    decreases s.len(),
{
    if s.len() == 0 {
        lemma_split_lines_end(s);
    } else {
        let i = idx_of(s, '\n');
        lemma_idx_of(s, '\n');
        assert(i < s.len()) by {
            if i == s.len() {
                assert(s[s.len() - 1] == '\n');
            }
        }
        lemma_split_lines_step(s);
        let l0 = s.take(i);
        let rest = s.skip(i + 1);
        assert(strip_cr(l0) =~= l0) by {
            if l0.len() > 0 && l0.last() == '\r' {
                assert(s[l0.len() - 1] == '\r');
            }
        }
        assert(rest.len() == 0 || rest.last() == '\n') by {
            if rest.len() > 0 {
                assert(rest.last() == s.last());
            }
        }
        assert(forall|j: int| 0 <= j < rest.len() ==> #[trigger] rest[j] == s[j + i + 1]);
        lemma_join_of_split(rest);
        let ls = split_lines(s);
        assert(ls[0] == l0 && ls.skip(1) =~= split_lines(rest));
        assert(join_terminated(ls) =~= l0 + seq!['\n'] + rest);
        assert(l0 + seq!['\n'] + rest =~= s);
    }
}

/// Length of the longest prefix of `s` whose characters all satisfy `p`.
pub open spec fn prefix_len(s: Seq<char>, p: spec_fn(char) -> bool) -> int
    decreases s.len(),
{
    if s.len() == 0 {
        0
    } else if p(s[0]) {
        1 + prefix_len(s.skip(1), p)
    } else {
        0
    }
}

pub proof fn lemma_prefix_len(s: Seq<char>, p: spec_fn(char) -> bool)
    ensures
        0 <= prefix_len(s, p) <= s.len(),
        forall|j: int| 0 <= j < prefix_len(s, p) ==> p(s[j]),
        prefix_len(s, p) < s.len() ==> !p(s[prefix_len(s, p)]),
    decreases s.len(),
{
    if s.len() == 0 {
    } else if p(s[0]) {
        lemma_prefix_len(s.skip(1), p);
        assert forall|j: int| 0 <= j < prefix_len(s, p) implies p(s[j]) by {
            if j > 0 {
                assert(s.skip(1)[j - 1] == s[j]);
            }
        }
        if prefix_len(s, p) < s.len() {
            assert(s.skip(1)[prefix_len(s, p) - 1] == s[prefix_len(s, p)]);
        }
    } else {
    }
}

pub proof fn lemma_prefix_len_unique(s: Seq<char>, p: spec_fn(char) -> bool, i: int)
    requires
        0 <= i <= s.len(),
        forall|j: int| 0 <= j < i ==> p(s[j]),
        i < s.len() ==> !p(s[i]),
    ensures
        prefix_len(s, p) == i,
{
    lemma_prefix_len(s, p);
    if prefix_len(s, p) < i {
        assert(p(s[prefix_len(s, p)]));
    }
    if prefix_len(s, p) > i {
        assert(p(s[i]));
    }
}

/// Length of the leading run of blank space in `s`.
pub open spec fn ws_len(s: Seq<char>) -> int {
    prefix_len(s, |c: char| is_space(c))
}

/// Length of the leading run of non-blank characters in `s`.
pub open spec fn token_len(s: Seq<char>) -> int {
    prefix_len(s, |c: char| !is_space(c))
}

/// The blank-separated tokens of `s`, in order, without empty tokens.
pub open spec fn ws_tokens(s: Seq<char>) -> Seq<Seq<char>>
    decreases s.len(),
{
    if s.len() == 0 {
        seq![]
    } else if is_space(s[0]) {
        ws_tokens(s.skip(1))
    } else {
        let i = token_len(s);
        if 1 <= i <= s.len() {
            seq![s.take(i)] + ws_tokens(s.skip(i))
        } else {
            seq![]
        }
    }
}

pub fn is_space_exec(c: char) -> (r: bool)
    ensures
        r == is_space(c),
{
    c == ' ' || c == '\t'
}

/// Whether two strings hold the same characters.
pub fn str_eq(a: &str, b: &str) -> (r: bool)
    ensures
        r == (a@ == b@),
{
    let na = a.unicode_len();
    let nb = b.unicode_len();
    if na != nb {
        return false;
    }
    let mut i: usize = 0;
    while i < na
        invariant
            i <= na,
            na == a@.len() == nb == b@.len(),
            forall|j: int| 0 <= j < i ==> a@[j] == b@[j],
        decreases na - i,
    {
        if a.get_char(i) != b.get_char(i) {
            return false;
        }
        i += 1;
    }
    proof {
        assert(a@ =~= b@);
    }
    true
}

/// Appends all characters of `src` to `dst`.
pub fn extend_chars(dst: &mut Vec<char>, src: &Vec<char>)
    ensures
        final(dst)@ == old(dst)@ + src@,
{
    let mut i: usize = 0;
    while i < src.len()
        invariant
            i <= src.len(),
            dst@ == old(dst)@ + src@.take(i as int),
        decreases src.len() - i,
    {
        dst.push(src[i]);
        i += 1;
        assert(dst@ =~= old(dst)@ + src@.take(i as int));
    }
    assert(dst@ =~= old(dst)@ + src@);
}

/// The blank-separated tokens of `v`, as executable character vectors.
pub fn ws_tokens_exec(v: &Vec<char>) -> (r: Vec<Vec<char>>)
    ensures
        r@.map_values(|q: Vec<char>| q@) == ws_tokens(v@),
{
    let n = v.len();
    let mut toks: Vec<Vec<char>> = Vec::new();
    let mut pos: usize = 0;
    proof {
        assert(v@.skip(0) =~= v@);
        assert(toks@.map_values(|q: Vec<char>| q@) + ws_tokens(v@) =~= ws_tokens(v@));
    }
    loop
        invariant_except_break
            pos <= n == v.len(),
            ws_tokens(v@) == toks@.map_values(|q: Vec<char>| q@) + ws_tokens(v@.skip(pos as int)),
        ensures
            toks@.map_values(|q: Vec<char>| q@) == ws_tokens(v@),
        decreases n - pos,
    {
        let ghost pos0: int = pos as int;
        while pos < n && is_space_exec(v[pos])
            invariant
                pos0 <= pos as int,
                pos <= n == v.len(),
                ws_tokens(v@) == toks@.map_values(|q: Vec<char>| q@) + ws_tokens(
                    v@.skip(pos as int),
                ),
            decreases n - pos,
        {
            proof {
                assert(v@.skip(pos as int)[0] == v@[pos as int]);
                assert(v@.skip(pos as int).skip(1) =~= v@.skip(pos + 1));
            }
            pos += 1;
        }
        if pos == n {
            proof {
                assert(ws_tokens(v@.skip(pos as int)) =~= Seq::<Seq<char>>::empty());
                assert(toks@.map_values(|q: Vec<char>| q@) + ws_tokens(v@.skip(pos as int))
                    =~= toks@.map_values(|q: Vec<char>| q@));
            }
            break;
        }
        let start = pos;
        assert(!is_space(v@[start as int]));
        let mut i: usize = pos;
        while i < n && !is_space_exec(v[i])
            invariant
                start <= i <= n == v.len(),
                !is_space(v@[start as int]),
                forall|j: int| start <= j < i ==> !is_space(v@[j]),
            decreases n - i,
        {
            i += 1;
        }
        assert(i > start);
        let piece = subvec(v, start, i);
        let ghost tail = v@.skip(start as int);
        proof {
            assert forall|j: int| 0 <= j < i - start implies !is_space(#[trigger] tail[j]) by {
                assert(tail[j] == v@[j + start]);
            }
            if i < n {
                assert(tail[i - start] == v@[i as int]);
            }
            lemma_prefix_len_unique(tail, |c: char| !is_space(c), i - start as int);
            assert(token_len(tail) == i - start);
            assert(!is_space(tail[0]));
            assert(ws_tokens(tail) == seq![tail.take(i - start as int)] + ws_tokens(
                tail.skip(i - start as int),
            ));
            assert(piece@ =~= tail.take(i - start as int));
            assert(tail.skip(i - start as int) =~= v@.skip(i as int));
            lemma_deep_view_push(toks, piece);
        }
        toks.push(piece);
        proof {
            assert(ws_tokens(v@) =~= toks@.map_values(|q: Vec<char>| q@) + ws_tokens(
                v@.skip(i as int),
            ));
        }
        pos = i;
    }
    toks
}

/// Relies on `String::push`: it appends the given character to the end of
/// the string.
#[verifier::external_body]
fn push_char(s: &mut String, c: char)
    ensures
        final(s)@ == old(s)@.push(c),
{
    s.push(c);
}

/// The characters of `s`, in order.
pub fn str_to_chars(s: &str) -> (r: Vec<char>)
    ensures
        r@ == s@,
{
    let n = s.unicode_len();
    let mut r: Vec<char> = Vec::new();
    let mut i: usize = 0;
    while i < n
        invariant
            i <= n,
            n == s@.len(),
            r@ == s@.take(i as int),
        decreases n - i,
    {
        r.push(s.get_char(i));
        i += 1;
        assert(r@ =~= s@.take(i as int));
    }
    assert(s@.take(n as int) =~= s@);
    r
}

/// A `String` holding exactly the characters of `v`.
pub fn chars_to_string(v: &Vec<char>) -> (r: String)
    ensures
        r@ == v@,
{
    let mut r = String::new();
    let mut i: usize = 0;
    while i < v.len()
        invariant
            i <= v.len(),
            r@ == v@.take(i as int),
        decreases v.len() - i,
    {
        push_char(&mut r, v[i]);
        i += 1;
        assert(r@ =~= v@.take(i as int));
    }
    assert(v@.take(v.len() as int) =~= v@);
    r
}

/// The characters of `v` between `from` and `to`.
pub fn subvec(v: &Vec<char>, from: usize, to: usize) -> (r: Vec<char>)
    requires
        from <= to <= v.len(),
    ensures
        r@ == v@.subrange(from as int, to as int),
{
    let mut r: Vec<char> = Vec::new();
    let mut i: usize = from;
    while i < to
        invariant
            from <= i <= to <= v.len(),
            r@ == v@.subrange(from as int, i as int),
        decreases to - i,
    {
        r.push(v[i]);
        i += 1;
        assert(r@ =~= v@.subrange(from as int, i as int));
    }
    r
}

/// Pushing a piece commutes with taking the pieces' views.
pub proof fn lemma_deep_view_push(ps: Vec<Vec<char>>, p: Vec<char>)
    ensures
        ps@.push(p).map_values(|q: Vec<char>| q@) =~= ps@.map_values(|q: Vec<char>| q@).push(p@),
{
}

/// `v` split at every occurrence of `sep`, as executable pieces.
pub fn split_on_exec(v: &Vec<char>, sep: char) -> (r: Vec<Vec<char>>)
    ensures
        r@.map_values(|q: Vec<char>| q@) == split_on(v@, sep),
        r.len() >= 1,
{
    let mut pieces: Vec<Vec<char>> = Vec::new();
    let mut start: usize = 0;
    proof {
        assert(v@.skip(0) =~= v@);
        assert(pieces@.map_values(|q: Vec<char>| q@) + split_on(v@, sep) =~= split_on(v@, sep));
    }
    loop
        invariant_except_break
            start <= v.len(),
            split_on(v@, sep) == pieces@.map_values(|q: Vec<char>| q@) + split_on(
                v@.skip(start as int),
                sep,
            ),
        ensures
            pieces@.map_values(|q: Vec<char>| q@) == split_on(v@, sep),
        decreases v.len() - start,
    {
        let ghost done = pieces@.map_values(|q: Vec<char>| q@);
        let mut i: usize = start;
        while i < v.len() && v[i] != sep
            invariant
                start <= i <= v.len(),
                forall|j: int| start <= j < i ==> v@[j] != sep,
            decreases v.len() - i,
        {
            i += 1;
        }
        let ghost tail = v@.skip(start as int);
        proof {
            assert forall|j: int| 0 <= j < i - start implies #[trigger] tail[j] != sep by {
                assert(tail[j] == v@[j + start]);
            }
            if i < v.len() {
                assert(tail[i - start] == v@[i as int]);
            }
            lemma_idx_of_unique(tail, sep, i - start as int);
        }
        let piece = subvec(v, start, i);
        proof {
            assert(piece@ =~= tail.take(i - start as int));
        }
        if i == v.len() {
            proof {
                lemma_deep_view_push(pieces, piece);
                assert(split_on(tail, sep) == seq![tail]);
                assert(tail.take(i - start as int) =~= tail);
            }
            pieces.push(piece);
            proof {
                assert(pieces@.map_values(|q: Vec<char>| q@) =~= split_on(v@, sep));
            }
            break;
        } else {
            proof {
                lemma_deep_view_push(pieces, piece);
                assert(split_on(tail, sep) == seq![tail.take(i - start as int)] + split_on(
                    tail.skip(i - start + 1),
                    sep,
                ));
                assert(tail.skip(i - start + 1) =~= v@.skip(i + 1));
            }
            pieces.push(piece);
            start = i + 1;
        }
    }
    proof {
        lemma_split_on_basic(v@, sep);
        assert(pieces@.map_values(|q: Vec<char>| q@).len() == pieces@.len());
    }
    pieces
}

/// `strip_cr`, executably: drops one trailing carriage return.
pub fn strip_cr_exec(p: &mut Vec<char>)
    ensures
        final(p)@ == strip_cr(old(p)@),
{
    let n = p.len();
    if n > 0 && p[n - 1] == '\r' {
        p.pop();
    }
}

/// The physical lines of `v`, as executable character vectors.
pub fn split_lines_exec(v: &Vec<char>) -> (r: Vec<Vec<char>>)
    ensures
        r@.map_values(|q: Vec<char>| q@) == split_lines(v@),
{
    let mut ps = split_on_exec(v, '\n');
    let ghost ps0 = ps@.map_values(|q: Vec<char>| q@);
    if ps[ps.len() - 1].len() == 0 {
        ps.pop();
    }
    let ghost kept = ps@.map_values(|q: Vec<char>| q@);
    proof {
        let full = split_on(v@, '\n');
        assert(kept =~= if full.last().len() == 0 { full.drop_last() } else { full });
    }
    let mut r: Vec<Vec<char>> = Vec::new();
    let mut i: usize = 0;
    while i < ps.len()
        invariant
            i <= ps.len(),
            r@.map_values(|q: Vec<char>| q@) == kept.take(i as int).map_values(
                |l: Seq<char>| strip_cr(l),
            ),
            kept == ps@.map_values(|q: Vec<char>| q@),
        decreases ps.len() - i,
    {
        let mut piece = ps[i].clone();
        proof {
            assert(piece@ == kept[i as int]);
        }
        strip_cr_exec(&mut piece);
        proof {
            lemma_deep_view_push(r, piece);
        }
        r.push(piece);
        i += 1;
        proof {
            assert(r@.map_values(|q: Vec<char>| q@) =~= kept.take(i as int).map_values(
                |l: Seq<char>| strip_cr(l),
            ));
        }
    }
    proof {
        assert(kept.take(ps.len() as int) =~= kept);
        assert(kept.map_values(|l: Seq<char>| strip_cr(l)) == split_lines(v@));
    }
    r
}

/// Appends one line of `join_terminated` after another.
proof fn lemma_join_terminated_snoc(ls: Seq<Seq<char>>, l: Seq<char>)
    ensures
        join_terminated(ls.push(l)) == join_terminated(ls) + l + seq!['\n'],
    decreases ls.len(),
{
    let a = ls.push(l);
    if ls.len() == 0 {
        assert(a[0] == l);
        assert(a.skip(1) =~= Seq::<Seq<char>>::empty());
        assert(join_terminated(a) == a[0] + seq!['\n'] + join_terminated(a.skip(1)));
        assert(join_terminated(a.skip(1)) == Seq::<char>::empty());
        assert(l + seq!['\n'] + Seq::<char>::empty() =~= join_terminated(ls) + l + seq!['\n']);
    } else {
        assert(a.skip(1) =~= ls.skip(1).push(l));
        lemma_join_terminated_snoc(ls.skip(1), l);
        assert(a[0] == ls[0]);
        assert(join_terminated(a) == a[0] + seq!['\n'] + join_terminated(a.skip(1)));
        assert(join_terminated(a.skip(1)) == join_terminated(ls.skip(1)) + l + seq!['\n']);
        assert(join_terminated(ls) == ls[0] + seq!['\n'] + join_terminated(ls.skip(1)));
        assert(ls[0] + seq!['\n'] + (join_terminated(ls.skip(1)) + l + seq!['\n']) =~= (ls[0]
            + seq!['\n'] + join_terminated(ls.skip(1))) + l + seq!['\n']);
    }
}

/// The lines of `ls` joined into one newline-terminated `String`.
pub fn join_lines(ls: &Vec<Vec<char>>) -> (r: String)
    ensures
        r@ == join_terminated(ls@.map_values(|q: Vec<char>| q@)),
{
    let ghost lsv = ls@.map_values(|q: Vec<char>| q@);
    let mut r = String::new();
    let mut i: usize = 0;
    while i < ls.len()
        invariant
            i <= ls.len(),
            lsv == ls@.map_values(|q: Vec<char>| q@),
            r@ == join_terminated(lsv.take(i as int)),
        decreases ls.len() - i,
    {
        let line = chars_to_string(&ls[i]);
        r.append(line.as_str());
        push_char(&mut r, '\n');
        proof {
            lemma_join_terminated_snoc(lsv.take(i as int), lsv[i as int]);
            assert(lsv.take(i as int).push(lsv[i as int]) =~= lsv.take(i as int + 1));
            assert(r@ =~= join_terminated(lsv.take(i as int + 1)));
        }
        i += 1;
    }
    proof {
        assert(lsv.take(ls.len() as int) =~= lsv);
    }
    r
}

} // verus!
