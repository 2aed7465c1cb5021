use vstd::prelude::*;
use crate::text::{chars_of, push_char, string_of};

verus! {

/// Mode of the comment-stripping automaton.
#[derive(Clone, Copy, Debug, PartialEq, Eq, Structural)]
pub enum ScanState {
    Normal,
    Slash,
    LineComment,
    BlockComment,
    Asterisk,
    Whitespace,
    Newline,
}

pub open spec fn is_blank(c: char) -> bool {
    c == ' ' || c == '\t'
}

/// What `char::is_whitespace` accepts (Unicode White_Space).
pub open spec fn is_white(c: char) -> bool {
    ('\u{9}' <= c && c <= '\u{d}') || c == ' ' || c == '\u{85}' || c == '\u{a0}'
        || c == '\u{1680}' || ('\u{2000}' <= c && c <= '\u{200a}') || c == '\u{2028}'
        || c == '\u{2029}' || c == '\u{202f}' || c == '\u{205f}' || c == '\u{3000}'
}

/// Emit `c` as ordinary text and pick the mode it leads to.
pub open spec fn emit(out: Seq<char>, c: char) -> (ScanState, Seq<char>) {
    let st = if is_blank(c) {
        ScanState::Whitespace
    } else if c == '\n' {
        ScanState::Newline
    } else if c == '/' {
        ScanState::Slash
    } else {
        ScanState::Normal
    };
    (st, out.push(c))
}

/// One transition: the mode and output after reading `c`. When `*/` closes a block
/// comment, the mode is the one that fits the last character kept (`mode_after`),
/// so that blanks on both sides of a comment collapse to one.
pub open spec fn step(st: ScanState, out: Seq<char>, c: char) -> (ScanState, Seq<char>) {
    match st {
        ScanState::Normal => emit(out, c),
        ScanState::Slash => if c == '/' {
            (ScanState::LineComment, out.drop_last())
        } else if c == '*' {
            (ScanState::BlockComment, out.drop_last())
        } else {
            emit(out, c)
        },
        ScanState::LineComment => if c == '\n' {
            (ScanState::Newline, out)
        } else {
            (ScanState::LineComment, out)
        },
        ScanState::BlockComment => if c == '*' {
            (ScanState::Asterisk, out)
        } else {
            (ScanState::BlockComment, out)
        },
        ScanState::Asterisk => if c == '/' {
            (mode_after(out), out)
        } else {
            (ScanState::BlockComment, out)
        },
        ScanState::Whitespace => if is_blank(c) {
            (ScanState::Whitespace, out)
        } else if c == '\n' {
            (ScanState::Newline, out.drop_last().push('\n'))
        } else {
            emit(out, c)
        },
        ScanState::Newline => if is_blank(c) || c == '\n' {
            (ScanState::Newline, out)
        } else {
            emit(out, c)
        },
    }
}

/// The automaton run over all of `s`, from `Normal` with nothing emitted.
pub open spec fn scan(s: Seq<char>) -> (ScanState, Seq<char>)
    decreases s.len(),
{
    if s.len() == 0 {
        (ScanState::Normal, Seq::empty())
    } else {
        let p = scan(s.drop_last());
        step(p.0, p.1, s.last())
    }
}

pub open spec fn trim_start(s: Seq<char>) -> Seq<char>
    decreases s.len(),
{
    if s.len() > 0 && is_white(s[0]) {
        trim_start(s.drop_first())
    } else {
        s
    }
}

pub open spec fn trim_end(s: Seq<char>) -> Seq<char>
    decreases s.len(),
{
    if s.len() > 0 && is_white(s.last()) {
        trim_end(s.drop_last())
    } else {
        s
    }
}

/// `s` without its leading and trailing whitespace.
pub open spec fn trim(s: Seq<char>) -> Seq<char> {
    trim_end(trim_start(s))
}

/// Append a finished line, and a `\n`, unless it holds only whitespace.
pub open spec fn keep_line(done: Seq<char>, line: Seq<char>) -> Seq<char> {
    if trim_end(line).len() == 0 {
        done
    } else {
        done + line.push('\n')
    }
}

/// Lines read so far: the kept text, and the line still open.
pub open spec fn split_keep(s: Seq<char>) -> (Seq<char>, Seq<char>)
    decreases s.len(),
{
    if s.len() == 0 {
        (Seq::empty(), Seq::empty())
    } else {
        let p = split_keep(s.drop_last());
        if s.last() == '\n' {
            (keep_line(p.0, p.1), Seq::empty())
        } else {
            (p.0, p.1.push(s.last()))
        }
    }
}

/// Every non-blank line of `s`, each ended by one `\n`.
pub open spec fn keep_nonblank_lines(s: Seq<char>) -> Seq<char> {
    let p = split_keep(s);
    keep_line(p.0, p.1)
}

/// The cleaned text: comments removed, spacing collapsed, no blank lines.
pub open spec fn stripped(s: Seq<char>) -> Seq<char> {
    keep_nonblank_lines(trim(scan(s).1))
}

/// What holds of the mode and of the text kept so far: the text is plain, `Slash`
/// follows a kept slash, `Whitespace` a kept blank, `Normal` anything else but a
/// newline, and no other mode follows a kept slash.
pub open spec fn scan_ok(st: ScanState, out: Seq<char>) -> bool {
    &&& plain(out)
    &&& match st {
        ScanState::Normal => out.len() == 0 || (!is_blank(out.last()) && out.last() != '\n'
            && out.last() != '/'),
        ScanState::Slash => out.len() > 0 && out.last() == '/',
        ScanState::Whitespace => out.len() > 0 && is_blank(out.last()),
        _ => out.len() == 0 || out.last() != '/',
    }
}

proof fn lemma_plain_push(s: Seq<char>, c: char)
    requires
        plain(s),
        s.len() > 0 ==> plain_pair(s.last(), c),
    ensures
        plain(s.push(c)),
{
    let t = s.push(c);
    assert forall|k: int| 0 <= k < t.len() - 1 implies plain_pair(#[trigger] t[k], t[k + 1]) by {
        if k + 1 < s.len() {
            assert(t[k] == s[k] && t[k + 1] == s[k + 1]);
        } else {
            assert(t[k] == s.last());
        }
    }
}

proof fn lemma_plain_drop_last(s: Seq<char>)
    requires
        plain(s),
        s.len() > 0,
    ensures
        plain(s.drop_last()),
{
    let t = s.drop_last();
    assert forall|k: int| 0 <= k < t.len() - 1 implies plain_pair(#[trigger] t[k], t[k + 1]) by {
        assert(t[k] == s[k] && t[k + 1] == s[k + 1]);
    }
}

proof fn lemma_emit_ok(out: Seq<char>, c: char)
    requires
        plain(out),
        out.len() > 0 ==> plain_pair(out.last(), c),
    ensures
        scan_ok(emit(out, c).0, emit(out, c).1),
{
    lemma_plain_push(out, c);
}

/// Every run of the automaton keeps plain text, in a mode that fits it.
pub proof fn lemma_scan_ok(s: Seq<char>)
    ensures
        scan_ok(scan(s).0, scan(s).1),
    decreases s.len(),
{
    if s.len() == 0 {
        assert(plain(Seq::<char>::empty()));
    } else {
        lemma_scan_ok(s.drop_last());
        let p = scan(s.drop_last());
        let (st, out) = (p.0, p.1);
        let c = s.last();
        match st {
            ScanState::Normal => lemma_emit_ok(out, c),
            ScanState::Slash => {
                if c == '/' || c == '*' {
                    lemma_plain_drop_last(out);
                    if out.len() > 1 {
                        assert(plain_pair(out[out.len() - 2], out[out.len() - 1]));
                    }
                } else {
                    lemma_emit_ok(out, c);
                }
            },
            ScanState::Whitespace => {
                if c == '\n' {
                    lemma_plain_drop_last(out);
                    if out.len() > 1 {
                        assert(plain_pair(out[out.len() - 2], out[out.len() - 1]));
                    }
                    lemma_plain_push(out.drop_last(), '\n');
                } else if !is_blank(c) {
                    lemma_emit_ok(out, c);
                }
            },
            ScanState::Newline => {
                if !is_blank(c) && c != '\n' {
                    lemma_emit_ok(out, c);
                }
            },
            _ => {},
        }
    }
}

pub fn is_white_char(c: char) -> (r: bool)
    ensures
        r == is_white(c),
{
    ('\u{9}' <= c && c <= '\u{d}') || c == ' ' || c == '\u{85}' || c == '\u{a0}'
        || c == '\u{1680}' || ('\u{2000}' <= c && c <= '\u{200a}') || c == '\u{2028}'
        || c == '\u{2029}' || c == '\u{202f}' || c == '\u{205f}' || c == '\u{3000}'
}

fn emit_exec(out: &mut Vec<char>, c: char) -> (st: ScanState)
    ensures
        (st, final(out)@) == emit(old(out)@, c),
{
    out.push(c);
    if c == ' ' || c == '\t' {
        ScanState::Whitespace
    } else if c == '\n' {
        ScanState::Newline
    } else if c == '/' {
        ScanState::Slash
    } else {
        ScanState::Normal
    }
}

fn step_exec(st: ScanState, out: &mut Vec<char>, c: char) -> (r: ScanState)
    requires
        scan_ok(st, old(out)@),
    ensures
        (r, final(out)@) == step(st, old(out)@, c),
{
    match st {
        ScanState::Normal => emit_exec(out, c),
        ScanState::Slash => {
            if c == '/' {
                out.pop();
                ScanState::LineComment
            } else if c == '*' {
                out.pop();
                ScanState::BlockComment
            } else {
                emit_exec(out, c)
            }
        },
        ScanState::LineComment => {
            if c == '\n' {
                ScanState::Newline
            } else {
                ScanState::LineComment
            }
        },
        ScanState::BlockComment => {
            if c == '*' {
                ScanState::Asterisk
            } else {
                ScanState::BlockComment
            }
        },
        ScanState::Asterisk => {
            if c == '/' {
                mode_after_exec(out)
            } else {
                ScanState::BlockComment
            }
        },
        ScanState::Whitespace => {
            if c == ' ' || c == '\t' {
                ScanState::Whitespace
            } else if c == '\n' {
                out.pop();
                out.push('\n');
                ScanState::Newline
            } else {
                emit_exec(out, c)
            }
        },
        ScanState::Newline => {
            if c == ' ' || c == '\t' || c == '\n' {
                ScanState::Newline
            } else {
                emit_exec(out, c)
            }
        },
    }
}

fn mode_after_exec(out: &Vec<char>) -> (r: ScanState)
    ensures
        r == mode_after(out@),
{
    if out.len() == 0 {
        ScanState::Normal
    } else {
        let c = out[out.len() - 1];
        if c == ' ' || c == '\t' {
            ScanState::Whitespace
        } else if c == '\n' {
            ScanState::Newline
        } else if c == '/' {
            ScanState::Slash
        } else {
            ScanState::Normal
        }
    }
}

/// Runs the automaton over `s`.
fn scan_exec(s: &Vec<char>) -> (r: Vec<char>)
    ensures
        r@ == scan(s@).1,
{
    let mut out: Vec<char> = Vec::new();
    let mut st = ScanState::Normal;
    let mut i: usize = 0;
    while i < s.len()
        invariant
            i <= s@.len(),
            (st, out@) == scan(s@.take(i as int)),
        decreases s@.len() - i,
    {
        assert(s@.take(i + 1).drop_last() =~= s@.take(i as int));
        proof {
            lemma_scan_ok(s@.take(i as int));
        }
        st = step_exec(st, &mut out, s[i]);
        i += 1;
    }
    assert(s@.take(i as int) =~= s@);
    out
}

/// Appends `line` and a `\n`, unless it holds only whitespace; `line` is left empty.
fn keep_line_exec(done: &mut Vec<char>, line: &mut Vec<char>)
    ensures
        final(done)@ == keep_line(old(done)@, old(line)@),
        final(line)@ == Seq::<char>::empty(),
{
    let mut j: usize = line.len();
    assert(line@.take(j as int) =~= line@);
    while j > 0 && is_white_char(line[j - 1])
        invariant
            j <= line@.len(),
            trim_end(line@) == trim_end(line@.take(j as int)),
        decreases j,
    {
        assert(line@.take(j as int).drop_last() =~= line@.take(j - 1));
        j -= 1;
    }
    if j > 0 {
        line.push('\n');
        done.append(line);
    } else {
        assert(line@.take(0) =~= Seq::<char>::empty());
        line.clear();
    }
}

/// The lines of `s[from..to]` that are not blank, each ended by one `\n`.
fn keep_nonblank_lines_exec(s: &Vec<char>, from: usize, to: usize) -> (r: Vec<char>)
    requires
        from <= to <= s@.len(),
    ensures
        r@ == keep_nonblank_lines(s@.subrange(from as int, to as int)),
{
    let mut done: Vec<char> = Vec::new();
    let mut line: Vec<char> = Vec::new();
    let mut k: usize = from;
    while k < to
        invariant
            from <= k <= to <= s@.len(),
            (done@, line@) == split_keep(s@.subrange(from as int, k as int)),
        decreases to - k,
    {
        let c = s[k];
        assert(s@.subrange(from as int, k + 1).drop_last() =~= s@.subrange(from as int, k as int));
        if c == '\n' {
            keep_line_exec(&mut done, &mut line);
        } else {
            line.push(c);
        }
        k += 1;
    }
    keep_line_exec(&mut done, &mut line);
    done
}

/// Start and end of `s` without its leading and trailing whitespace.
fn trim_bounds(s: &Vec<char>) -> (r: (usize, usize))
    ensures
        r.0 <= r.1 <= s@.len(),
        s@.subrange(r.0 as int, r.1 as int) == trim(s@),
{
    let mut i: usize = 0;
    assert(s@.subrange(0, s@.len() as int) =~= s@);
    while i < s.len() && is_white_char(s[i])
        invariant
            i <= s@.len(),
            trim_start(s@) == trim_start(s@.subrange(i as int, s@.len() as int)),
        decreases s@.len() - i,
    {
        assert(s@.subrange(i as int, s@.len() as int).drop_first() =~= s@.subrange(i + 1, s@.len() as int));
        i += 1;
    }
    let mut j: usize = s.len();
    while j > i && is_white_char(s[j - 1])
        invariant
            i <= j <= s@.len(),
            trim_start(s@) == s@.subrange(i as int, s@.len() as int),
            trim(s@) == trim_end(s@.subrange(i as int, j as int)),
        decreases j,
    {
        assert(s@.subrange(i as int, j as int).drop_last() =~= s@.subrange(i as int, j - 1));
        j -= 1;
    }
    (i, j)
}

/// Removes `//` and `/* */` comments, collapses runs of blanks and blank lines,
/// trims the text and ends every remaining line with a single `\n`. Never fails:
/// an unterminated comment runs to the end of the text.
pub fn remove_comments(program: String) -> (r: String)
    ensures
        r@ == stripped(program@),
{
    let input = chars_of(program.as_str());
    let scanned = scan_exec(&input);
    let (from, to) = trim_bounds(&scanned);
    let kept = keep_nonblank_lines_exec(&scanned, from, to);
    string_of(&kept)
}

/// Two neighbouring characters that the automaton keeps as they are: no comment
/// opens, no run of blanks, no blank at a line's end, no blank or empty line after.
pub open spec fn plain_pair(a: char, b: char) -> bool {
    &&& !(a == '/' && (b == '/' || b == '*'))
    &&& !(is_blank(a) && (is_blank(b) || b == '\n'))
    &&& !(a == '\n' && (is_blank(b) || b == '\n'))
}

/// Text that the automaton copies unchanged.
pub open spec fn plain(s: Seq<char>) -> bool {
    forall|k: int| 0 <= k < s.len() - 1 ==> plain_pair(#[trigger] s[k], s[k + 1])
}

/// The mode the automaton is in after copying `s`.
pub open spec fn mode_after(s: Seq<char>) -> ScanState {
    if s.len() == 0 {
        ScanState::Normal
    } else {
        emit(Seq::empty(), s.last()).0
    }
}

proof fn lemma_scan_plain(s: Seq<char>)
    requires
        plain(s),
    ensures
        scan(s) == (mode_after(s), s),
    decreases s.len(),
{
    if s.len() > 0 {
        let front = s.drop_last();
        assert(plain(front)) by {
            assert forall|k: int| 0 <= k < front.len() - 1 implies plain_pair(#[trigger] front[k], front[k + 1]) by {
                assert(front[k] == s[k] && front[k + 1] == s[k + 1]);
            }
        }
        lemma_scan_plain(front);
        if front.len() > 0 {
            assert(plain_pair(s[s.len() - 2], s[s.len() - 1]));
            assert(front.last() == s[s.len() - 2]);
        }
        assert(front.push(s.last()) =~= s);
    }
}

proof fn lemma_trim_start(s: Seq<char>)
    ensures
        trim_start(s) == s.subrange(s.len() - trim_start(s).len(), s.len() as int),
        trim_start(s).len() <= s.len(),
        trim_start(s).len() > 0 ==> !is_white(trim_start(s)[0]),
    decreases s.len(),
{
    if s.len() > 0 && is_white(s[0]) {
        lemma_trim_start(s.drop_first());
        assert(s.drop_first().subrange(s.drop_first().len() - trim_start(s).len(), s.drop_first().len() as int)
            =~= s.subrange(s.len() - trim_start(s).len(), s.len() as int));
    } else {
        assert(s.subrange(0, s.len() as int) =~= s);
    }
}

proof fn lemma_trim_end(s: Seq<char>)
    ensures
        trim_end(s) == s.subrange(0, trim_end(s).len() as int),
        trim_end(s).len() <= s.len(),
        trim_end(s).len() > 0 ==> !is_white(trim_end(s).last()),
    decreases s.len(),
{
    if s.len() > 0 && is_white(s.last()) {
        lemma_trim_end(s.drop_last());
        assert(s.drop_last().subrange(0, trim_end(s).len() as int) =~= s.subrange(0, trim_end(s).len() as int));
    } else {
        assert(s.subrange(0, s.len() as int) =~= s);
    }
}

/// `trim(s)` is `s[a..b]` for some `a <= b`, and starts and ends with non-whitespace.
proof fn lemma_trim(s: Seq<char>) -> (ab: (int, int))
    ensures
        0 <= ab.0 <= ab.1 <= s.len(),
        trim(s) == s.subrange(ab.0, ab.1),
        trim(s).len() > 0 ==> !is_white(trim(s)[0]) && !is_white(trim(s).last()),
{
    lemma_trim_start(s);
    let u = trim_start(s);
    lemma_trim_end(u);
    let a = s.len() - u.len();
    let b = a + trim_end(u).len();
    assert(s.subrange(a, s.len() as int).subrange(0, trim_end(u).len() as int) =~= s.subrange(a, b));
    if trim(s).len() > 0 {
        assert(trim(s)[0] == u[0]);
    }
    (a, b)
}

/// Where the line holding position `k` of `t` starts.
pub open spec fn line_start(t: Seq<char>, k: int) -> int
    decreases k,
{
    if k <= 0 {
        0
    } else if t[k - 1] == '\n' {
        k
    } else {
        line_start(t, k - 1)
    }
}

/// Every line of `d` that a newline ends holds more than whitespace.
pub open spec fn lines_not_blank(d: Seq<char>) -> bool {
    forall|j: int|
        0 <= j < d.len() && #[trigger] d[j] == '\n' ==> trim_end(d.subrange(line_start(d, j), j)).len() > 0
}

/// The form of cleaned text: empty, or plain lines that hold more than whitespace,
/// each ended by a newline, starting and ending with a visible character.
pub open spec fn normal_form(y: Seq<char>) -> bool {
    y.len() == 0 || (y.len() >= 2 && y.last() == '\n' && !is_white(y[0]) && !is_white(y[y.len() - 2])
        && plain(y) && lines_not_blank(y))
}

proof fn lemma_line_start(t: Seq<char>, k: int)
    requires
        0 <= k <= t.len(),
    ensures
        0 <= line_start(t, k) <= k,
        line_start(t, k) > 0 ==> t[line_start(t, k) - 1] == '\n',
        forall|j: int| line_start(t, k) <= j < k ==> #[trigger] t[j] != '\n',
    decreases k,
{
    if k > 0 && t[k - 1] != '\n' {
        lemma_line_start(t, k - 1);
    }
}

proof fn lemma_trim_end_front(s: Seq<char>)
    requires
        s.len() > 0,
        !is_white(s[0]),
    ensures
        trim_end(s).len() > 0,
        trim_end(s)[0] == s[0],
    decreases s.len(),
{
    lemma_trim_end(s);
    if is_white(s.last()) {
        lemma_trim_end_front(s.drop_last());
    }
}

proof fn lemma_plain_concat(a: Seq<char>, b: Seq<char>)
    requires
        plain(a),
        plain(b),
        a.len() > 0 && b.len() > 0 ==> plain_pair(a.last(), b[0]),
    ensures
        plain(a + b),
{
    let t = a + b;
    assert forall|k: int| 0 <= k < t.len() - 1 implies plain_pair(#[trigger] t[k], t[k + 1]) by {
        if k + 1 < a.len() {
            assert(t[k] == a[k] && t[k + 1] == a[k + 1]);
        } else if k >= a.len() {
            assert(t[k] == b[k - a.len()] && t[k + 1] == b[k + 1 - a.len()]);
        } else {
            assert(t[k] == a.last() && t[k + 1] == b[0]);
        }
    }
}

proof fn lemma_line_start_prefix(a: Seq<char>, b: Seq<char>, j: int)
    requires
        0 <= j <= a.len(),
    ensures
        line_start(a + b, j) == line_start(a, j),
    decreases j,
{
    if j > 0 {
        assert((a + b)[j - 1] == a[j - 1]);
        lemma_line_start_prefix(a, b, j - 1);
    }
}

proof fn lemma_line_start_tail(d: Seq<char>, c: Seq<char>, k: int)
    requires
        d.len() == 0 || d.last() == '\n',
        0 <= k <= c.len(),
        forall|i: int| 0 <= i < k ==> #[trigger] c[i] != '\n',
    ensures
        line_start(d + c, d.len() + k) == d.len(),
    decreases k,
{
    if k == 0 {
        if d.len() > 0 {
            assert((d + c)[d.len() - 1] == d.last());
        }
    } else {
        assert((d + c)[d.len() + k - 1] == c[k - 1]);
        lemma_line_start_tail(d, c, k - 1);
    }
}

/// What the kept text of the lines read so far looks like.
pub open spec fn kept_ok(u: Seq<char>, done: Seq<char>) -> bool {
    done.len() > 0 ==> done.last() == '\n' && done[0] == u[0] && plain(done) && lines_not_blank(done)
}

proof fn lemma_lines_append(done: Seq<char>, cur: Seq<char>)
    requires
        done.len() == 0 || done.last() == '\n',
        lines_not_blank(done),
        forall|i: int| 0 <= i < cur.len() ==> #[trigger] cur[i] != '\n',
        trim_end(cur).len() > 0,
    ensures
        lines_not_blank(done + cur.push('\n')),
{
    let chunk = cur.push('\n');
    let nd = done + chunk;
    let dl = done.len() as int;
    assert forall|j: int| 0 <= j < nd.len() && #[trigger] nd[j] == '\n' implies trim_end(
        nd.subrange(line_start(nd, j), j),
    ).len() > 0 by {
        if j < dl {
            assert(nd[j] == done[j]);
            lemma_line_start_prefix(done, chunk, j);
            lemma_line_start(done, j);
            assert(nd.subrange(line_start(nd, j), j) =~= done.subrange(line_start(done, j), j));
        } else {
            if j - dl < cur.len() {
                assert(nd[j] == cur[j - dl]);
            }
            assert(j - dl == cur.len());
            assert forall|i: int| 0 <= i < cur.len() implies #[trigger] chunk[i] != '\n' by {
                assert(chunk[i] == cur[i]);
            }
            lemma_line_start_tail(done, chunk, cur.len() as int);
            assert(nd.subrange(dl, j) =~= cur);
        }
    }
}

/// Keeping the line `u[ls..e]` leaves kept text of the same form.
proof fn lemma_keep_chunk(u: Seq<char>, done: Seq<char>, ls: int, e: int)
    requires
        plain(u),
        0 <= ls < e <= u.len(),
        !is_white(u[0]),
        !is_white(u.last()),
        e < u.len() ==> u[e] == '\n',
        forall|j: int| ls <= j < e ==> #[trigger] u[j] != '\n',
        ls > 0 ==> u[ls - 1] == '\n',
        done.len() == 0 ==> ls == 0,
        done.len() > 0 ==> ls > 0,
        kept_ok(u, done),
    ensures
        kept_ok(u, keep_line(done, u.subrange(ls, e))),
        keep_line(done, u.subrange(ls, e)).len() > 0,
        trim_end(u.subrange(ls, e)).len() > 0 ==> keep_line(done, u.subrange(ls, e)) == done
            + u.subrange(ls, e).push('\n'),
{
    let cur = u.subrange(ls, e);
    lemma_trim_end(cur);
    if ls > 0 {
        assert(plain_pair(u[ls - 1], u[ls]));
    }
    assert(cur[0] == u[ls]);
    if ls == 0 {
        lemma_trim_end_front(cur);
    }
    if trim_end(cur).len() > 0 {
        assert(plain(cur)) by {
            assert forall|k: int| 0 <= k < cur.len() - 1 implies plain_pair(#[trigger] cur[k], cur[k + 1]) by {
                assert(cur[k] == u[ls + k] && cur[k + 1] == u[ls + k + 1]);
            }
        }
        assert(cur.last() == u[e - 1]);
        if e < u.len() {
            assert(plain_pair(u[e - 1], u[e]));
        }
        lemma_plain_push(cur, '\n');
        let chunk = cur.push('\n');
        if done.len() > 0 {
            assert(plain_pair('\n', u[ls]));
        }
        lemma_plain_concat(done, chunk);
        let nd = done + chunk;
        assert forall|i: int| 0 <= i < cur.len() implies #[trigger] cur[i] != '\n' by {
            assert(cur[i] == u[ls + i]);
        }
        lemma_lines_append(done, cur);
        assert(nd.last() == '\n');
        if done.len() > 0 {
            assert(nd[0] == done[0]);
        } else {
            assert(nd[0] == chunk[0]);
        }
    }
}

#[verifier::spinoff_prover]
#[verifier::rlimit(40)]
proof fn lemma_split_keep_form(u: Seq<char>, k: int)
    requires
        plain(u),
        1 <= k <= u.len(),
        !is_white(u[0]),
        !is_white(u.last()),
    ensures
        split_keep(u.take(k)).1 == u.subrange(line_start(u, k), k),
        kept_ok(u, split_keep(u.take(k)).0),
        split_keep(u.take(k)).0.len() == 0 ==> line_start(u, k) == 0,
        split_keep(u.take(k)).0.len() > 0 ==> line_start(u, k) > 0,
    decreases k,
{
    lemma_line_start(u, k);
    assert(u.take(k).drop_last() =~= u.take(k - 1));
    if k == 1 {
        assert(u.take(0) =~= Seq::<char>::empty());
        assert(u.subrange(0, 1) =~= seq![u[0]]);
        assert(u[0] != '\n');
        assert(u.take(1).last() == u[0]);
        assert(split_keep(u.take(0)) == (Seq::<char>::empty(), Seq::<char>::empty()));
        assert(split_keep(u.take(1)) == (Seq::<char>::empty(), Seq::<char>::empty().push(u[0])));
        assert(Seq::<char>::empty().push(u[0]) =~= seq![u[0]]);
        assert(line_start(u, 1) == line_start(u, 0));
    } else {
        lemma_split_keep_form(u, k - 1);
        lemma_line_start(u, k - 1);
        let ls = line_start(u, k - 1);
        let p = split_keep(u.take(k - 1));
        if u[k - 1] == '\n' {
            assert(split_keep(u.take(k)) == (keep_line(p.0, p.1), Seq::<char>::empty()));
            assert(line_start(u, k) == k);
            assert(u.subrange(k, k) =~= Seq::<char>::empty());
            if ls < k - 1 {
                lemma_keep_chunk(u, p.0, ls, k - 1);
            } else {
                assert(u.subrange(ls, k - 1).len() == 0);
                assert(trim_end(u.subrange(ls, k - 1)).len() == 0);
                if p.0.len() == 0 {
                    assert(!is_white(u[0]));
                }
            }
        } else {
            assert(split_keep(u.take(k)) == (p.0, p.1.push(u[k - 1])));
            assert(line_start(u, k) == ls);
            assert(u.subrange(ls, k - 1).push(u[k - 1]) =~= u.subrange(ls, k));
        }
    }
}

/// A first pass always leaves cleaned text in normal form.
proof fn lemma_stripped_normal(x: Seq<char>)
    ensures
        normal_form(stripped(x)),
{
    lemma_scan_ok(x);
    let ab = lemma_trim(scan(x).1);
    let sc = scan(x).1;
    let u = trim(sc);
    if u.len() == 0 {
        assert(u =~= Seq::<char>::empty());
        assert(trim_end(Seq::<char>::empty()).len() == 0);
    } else {
        assert(plain(u)) by {
            assert forall|k: int| 0 <= k < u.len() - 1 implies plain_pair(#[trigger] u[k], u[k + 1]) by {
                assert(u[k] == sc[ab.0 + k] && u[k + 1] == sc[ab.0 + k + 1]);
            }
        }
        let n = u.len() as int;
        lemma_split_keep_form(u, n);
        assert(u.take(n) =~= u);
        lemma_line_start(u, n);
        let ls = line_start(u, n);
        assert(u[n - 1] != '\n');
        lemma_line_start(u, n - 1);
        let cur = u.subrange(ls, n);
        assert(cur.last() == u.last());
        assert(trim_end(cur) == cur);
        lemma_keep_chunk(u, split_keep(u).0, ls, n);
        let y = stripped(x);
        assert(y == split_keep(u).0 + cur.push('\n'));
        assert(y[y.len() - 2] == cur.last());
    }
}

proof fn lemma_split_keep_identity(t: Seq<char>, k: int)
    requires
        0 <= k <= t.len(),
        lines_not_blank(t),
    ensures
        split_keep(t.take(k)) == (t.take(line_start(t, k)), t.subrange(line_start(t, k), k)),
    decreases k,
{
    lemma_line_start(t, k);
    if k > 0 {
        lemma_split_keep_identity(t, k - 1);
        let ls = line_start(t, k - 1);
        lemma_line_start(t, k - 1);
        assert(t.take(k).drop_last() =~= t.take(k - 1));
        if t[k - 1] == '\n' {
            assert(t[k - 1] == '\n');
            let cur = t.subrange(ls, k - 1);
            assert(trim_end(cur).len() > 0);
            assert(t.take(ls) + cur.push('\n') =~= t.take(k));
        } else {
            assert(t.subrange(ls, k - 1).push(t[k - 1]) =~= t.subrange(ls, k));
        }
    }
}

/// Lines that each hold more than whitespace, the last ending in a visible
/// character, are all kept as they are.
proof fn lemma_keep_identity(t: Seq<char>)
    requires
        t.len() > 0,
        !is_white(t.last()),
        lines_not_blank(t),
    ensures
        keep_nonblank_lines(t) == t.push('\n'),
{
    let n = t.len() as int;
    lemma_split_keep_identity(t, n);
    assert(t.take(n) =~= t);
    lemma_line_start(t, n);
    lemma_line_start(t, n - 1);
    let ls = line_start(t, n);
    let cur = t.subrange(ls, n);
    assert(cur.last() == t.last());
    assert(trim_end(cur) == cur);
    assert(t.take(ls) + cur.push('\n') =~= t.push('\n'));
}

/// Text in normal form comes back unchanged.
proof fn lemma_normal_fixed(y: Seq<char>)
    requires
        normal_form(y),
    ensures
        stripped(y) == y,
{
    if y.len() == 0 {
        assert(scan(y).1 =~= y) by {
            assert(plain(y));
            lemma_scan_plain(y);
        }
        assert(trim_end(Seq::<char>::empty()).len() == 0);
        assert(trim(y) =~= Seq::<char>::empty());
        assert(split_keep(Seq::<char>::empty()).0 =~= Seq::<char>::empty());
    } else {
        lemma_scan_plain(y);
        assert(trim_start(y) == y);
        let t = y.drop_last();
        assert(t.last() == y[y.len() - 2]);
        assert(trim_end(t) == t);
        assert(trim_end(y) == t);
        assert(y =~= t + seq!['\n']);
        assert(lines_not_blank(t)) by {
            assert forall|j: int| 0 <= j < t.len() && #[trigger] t[j] == '\n' implies trim_end(
                t.subrange(line_start(t, j), j),
            ).len() > 0 by {
                assert(y[j] == t[j]);
                lemma_line_start_prefix(t, seq!['\n'], j);
                lemma_line_start(t, j);
                assert(y.subrange(line_start(y, j), j) =~= t.subrange(line_start(t, j), j));
            }
        }
        lemma_keep_identity(t);
        assert(t.push('\n') =~= y);
    }
}

/// Cleaning text twice gives what cleaning it once gives.
pub proof fn lemma_strip_idempotent(x: Seq<char>)
    ensures
        stripped(stripped(x)) == stripped(x),
{
    lemma_stripped_normal(x);
    lemma_normal_fixed(stripped(x));
}

/// No `//` or `/*` is left in cleaned text.
pub proof fn lemma_no_comment_marker(x: Seq<char>)
    ensures
        forall|k: int| 0 <= k < stripped(x).len() - 1 && #[trigger] stripped(x)[k] == '/' ==> stripped(x)[k + 1] != '/'
            && stripped(x)[k + 1] != '*',
{
    lemma_stripped_normal(x);
    let y = stripped(x);
    assert forall|k: int| 0 <= k < y.len() - 1 && #[trigger] y[k] == '/' implies y[k + 1] != '/' && y[k + 1] != '*' by {
        assert(plain_pair(y[k], y[k + 1]));
    }
}

/// Text with no comment opener, no run of blanks, no blank next to a newline, no
/// blank or newline right after a newline, and no line of its trim that holds only
/// whitespace, comes back as its trimmed self ended by one newline.
pub proof fn lemma_clean_text_strips_to_trim(x: Seq<char>)
    requires
        plain(x),
        lines_not_blank(trim(x)),
    ensures
        stripped(x) == if trim(x).len() == 0 { Seq::<char>::empty() } else { trim(x).push('\n') },
{
    lemma_scan_plain(x);
    lemma_trim(x);
    let t = trim(x);
    if t.len() == 0 {
        assert(t =~= Seq::<char>::empty());
        assert(trim_end(Seq::<char>::empty()).len() == 0);
    } else {
        lemma_keep_identity(t);
    }
}

} // verus!
