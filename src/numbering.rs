use vstd::prelude::*;
use crate::text::{chars_of, string_of};

verus! {

/// A line ended by `\n` loses a `\r` just before it.
pub open spec fn strip_cr(l: Seq<char>) -> Seq<char> {
    if l.len() > 0 && l.last() == '\r' {
        l.drop_last()
    } else {
        l
    }
}

/// The decimal digit for `d < 10`.
pub open spec fn digit(d: nat) -> char {
    seq!['0', '1', '2', '3', '4', '5', '6', '7', '8', '9'][d as int]
}

/// `n` written in decimal, without leading zeros.
pub open spec fn decimal(n: nat) -> Seq<char>
    decreases n,
{
    if n < 10 {
        seq![digit(n)]
    } else {
        decimal(n / 10).push(digit(n % 10))
    }
}

/// The index of a line, left-justified in a field at least three wide.
pub open spec fn label(i: nat) -> Seq<char> {
    let d = decimal(i);
    if d.len() < 3 {
        d + Seq::new((3 - d.len()) as nat, |k: int| ' ')
    } else {
        d
    }
}

/// Lines ended so far (without `\n`, nor a `\r` before it), and the line still open.
pub open spec fn split_lines(s: Seq<char>) -> (Seq<Seq<char>>, Seq<char>)
    decreases s.len(),
{
    if s.len() == 0 {
        (Seq::empty(), Seq::empty())
    } else {
        let p = split_lines(s.drop_last());
        if s.last() == '\n' {
            (p.0.push(strip_cr(p.1)), Seq::empty())
        } else {
            (p.0, p.1.push(s.last()))
        }
    }
}

/// The lines of `s` as `str::lines` gives them: split at `\n` or `\r\n`, with no
/// empty line after a final `\n`.
pub open spec fn lines_of(s: Seq<char>) -> Seq<Seq<char>> {
    let p = split_lines(s);
    if p.1.len() == 0 {
        p.0
    } else {
        p.0.push(p.1)
    }
}

/// Each line prefixed with its label and ended by `\n`.
pub open spec fn numbered(ls: Seq<Seq<char>>) -> Seq<char>
    decreases ls.len(),
{
    if ls.len() == 0 {
        Seq::empty()
    } else {
        numbered(ls.drop_last()) + label((ls.len() - 1) as nat) + ls.last().push('\n')
    }
}

pub fn digit_exec(d: u128) -> (r: char)
    requires
        d < 10,
    ensures
        r == digit(d as nat),
{
    let ds = ['0', '1', '2', '3', '4', '5', '6', '7', '8', '9'];
    let r = ds[d as usize];
    assert(ds@ =~= seq!['0', '1', '2', '3', '4', '5', '6', '7', '8', '9']);
    r
}

pub fn decimal_exec(n: u128) -> (r: Vec<char>)
    ensures
        r@ == decimal(n as nat),
    decreases n,
{
    if n < 10 {
        let mut v: Vec<char> = Vec::new();
        v.push(digit_exec(n));
        assert(v@ =~= seq![digit(n as nat)]);
        v
    } else {
        let mut v = decimal_exec(n / 10);
        v.push(digit_exec(n % 10));
        v
    }
}

/// Appends the label of line `i` to `out`.
fn push_label(out: &mut Vec<char>, i: usize)
    ensures
        final(out)@ == old(out)@ + label(i as nat),
{
    let mut d = decimal_exec(i as u128);
    let ghost dd = d@;
    while d.len() < 3
        invariant
            dd.len() >= 3 ==> d@ == dd,
            dd.len() < 3 ==> dd.len() <= d@.len() <= 3,
            dd.len() < 3 ==> d@ == dd + Seq::new((d@.len() - dd.len()) as nat, |k: int| ' '),
        decreases 3 - d@.len(),
    {
        d.push(' ');
        assert(dd + Seq::new((d@.len() - dd.len()) as nat, |k: int| ' ') =~= d@);
    }
    proof {
        if dd.len() < 3 {
            assert(d@.len() == 3);
        }
    }
    out.append(&mut d);
}

/// Prefixes every line with its 0-based index, left-justified in a field three
/// characters wide (wider from 1000 on), and ends each line with `\n`.
pub fn add_line_numbers(program: String) -> (r: String)
    ensures
        r@ == numbered(lines_of(program@)),
{
    let s = chars_of(program.as_str());
    let mut out: Vec<char> = Vec::new();
    let mut line: Vec<char> = Vec::new();
    let mut idx: usize = 0;
    let mut k: usize = 0;
    while k < s.len()
        invariant
            k <= s@.len(),
            out@ == numbered(split_lines(s@.take(k as int)).0),
            line@ == split_lines(s@.take(k as int)).1,
            idx == split_lines(s@.take(k as int)).0.len(),
            idx <= k,
        decreases s@.len() - k,
    {
        let c = s[k];
        let ghost p = split_lines(s@.take(k as int));
        assert(s@.take(k + 1).drop_last() =~= s@.take(k as int));
        if c == '\n' {
            if line.len() > 0 && line[line.len() - 1] == '\r' {
                line.pop();
            }
            assert(line@ == strip_cr(p.1));
            push_label(&mut out, idx);
            line.push('\n');
            out.append(&mut line);
            assert(p.0.push(strip_cr(p.1)).drop_last() =~= p.0);
            idx += 1;
        } else {
            line.push(c);
        }
        k += 1;
    }
    assert(s@.take(k as int) =~= s@);
    if line.len() > 0 {
        let ghost p = split_lines(s@);
        push_label(&mut out, idx);
        line.push('\n');
        out.append(&mut line);
        assert(p.0.push(p.1).drop_last() =~= p.0);
    }
    string_of(&out)
}

pub open spec fn no_newline(l: Seq<char>) -> bool {
    forall|k: int| 0 <= k < l.len() ==> #[trigger] l[k] != '\n'
}

pub open spec fn ends_in_cr(l: Seq<char>) -> bool {
    l.len() > 0 && l.last() == '\r'
}

proof fn lemma_decimal_digits(n: nat)
    ensures
        decimal(n).len() > 0,
        forall|k: int| 0 <= k < decimal(n).len() ==> '0' <= #[trigger] decimal(n)[k] <= '9',
    decreases n,
{
    if n >= 10 {
        lemma_decimal_digits(n / 10);
    }
}

proof fn lemma_label_plain(i: nat)
    ensures
        label(i).len() > 0,
        forall|k: int| 0 <= k < label(i).len() ==> ('0' <= #[trigger] label(i)[k] <= '9' || label(i)[k] == ' '),
{
    lemma_decimal_digits(i);
    let d = decimal(i);
    if d.len() < 3 {
        let l = label(i);
        assert forall|k: int| 0 <= k < l.len() implies ('0' <= #[trigger] l[k] <= '9' || l[k] == ' ') by {
            if k < d.len() {
                assert(l[k] == d[k]);
            }
        }
    }
}

/// The lines of `str::lines` hold no `\n`.
proof fn lemma_split_no_newline(s: Seq<char>)
    ensures
        no_newline(split_lines(s).1),
        forall|k: int| 0 <= k < split_lines(s).0.len() ==> no_newline(#[trigger] split_lines(s).0[k]),
    decreases s.len(),
{
    if s.len() > 0 {
        lemma_split_no_newline(s.drop_last());
        let p = split_lines(s.drop_last());
        if s.last() == '\n' {
            let l = strip_cr(p.1);
            assert(no_newline(l)) by {
                if p.1.len() > 0 && p.1.last() == '\r' {
                    assert forall|k: int| 0 <= k < l.len() implies #[trigger] l[k] != '\n' by {
                        assert(l[k] == p.1[k]);
                    }
                }
            }
            assert forall|k: int| 0 <= k < split_lines(s).0.len() implies no_newline(#[trigger] split_lines(s).0[k]) by {
                if k < p.0.len() {
                    assert(split_lines(s).0[k] == p.0[k]);
                }
            }
        } else {
            let l = p.1.push(s.last());
            assert forall|k: int| 0 <= k < l.len() implies #[trigger] l[k] != '\n' by {
                if k < p.1.len() {
                    assert(l[k] == p.1[k]);
                }
            }
        }
    }
}

proof fn lemma_split_open_line(pre: Seq<char>, w: Seq<char>)
    requires
        split_lines(pre).1.len() == 0,
        no_newline(w),
    ensures
        split_lines(pre + w) == (split_lines(pre).0, w),
    decreases w.len(),
{
    if w.len() == 0 {
        assert(pre + w =~= pre);
    } else {
        lemma_split_open_line(pre, w.drop_last());
        assert((pre + w).drop_last() =~= pre + w.drop_last());
        assert(w.drop_last().push(w.last()) =~= w);
        assert(w[w.len() - 1] != '\n');
    }
}

/// Splitting numbered lines gives back each line with its label.
proof fn lemma_split_numbered(ls: Seq<Seq<char>>)
    requires
        forall|k: int| 0 <= k < ls.len() ==> no_newline(#[trigger] ls[k]),
    ensures
        split_lines(numbered(ls)).1.len() == 0,
        split_lines(numbered(ls)).0 == Seq::new(ls.len(), |i: int| strip_cr(label(i as nat) + ls[i])),
    decreases ls.len(),
{
    if ls.len() > 0 {
        let front = ls.drop_last();
        let n = (ls.len() - 1) as nat;
        assert forall|k: int| 0 <= k < front.len() implies no_newline(#[trigger] front[k]) by {
            assert(front[k] == ls[k]);
        }
        lemma_split_numbered(front);
        lemma_label_plain(n);
        let w = label(n) + ls.last();
        assert(no_newline(w)) by {
            assert forall|k: int| 0 <= k < w.len() implies #[trigger] w[k] != '\n' by {
                if k >= label(n).len() {
                    assert(w[k] == ls.last()[k - label(n).len()]);
                } else {
                    assert(w[k] == label(n)[k]);
                }
            }
        }
        let pre = numbered(front);
        lemma_split_open_line(pre, w);
        assert(numbered(ls) =~= (pre + w).push('\n'));
        assert((pre + w).push('\n').drop_last() =~= pre + w);
        assert(split_lines(numbered(ls)).0 =~= Seq::new(ls.len(), |i: int| strip_cr(label(i as nat) + ls[i])));
    }
}

/// Numbering keeps the count of lines and puts each line's 0-based label in front of
/// it; read back by lines, a line that itself ends in `\r` loses that `\r`.
pub proof fn lemma_line_numbers(x: Seq<char>)
    ensures
        lines_of(numbered(lines_of(x))).len() == lines_of(x).len(),
        forall|i: int| 0 <= i < lines_of(x).len() ==> #[trigger] lines_of(numbered(lines_of(x)))[i] == strip_cr(label(i as nat) + lines_of(x)[i]),
        forall|i: int| 0 <= i < lines_of(x).len() && !ends_in_cr(lines_of(x)[i]) ==> #[trigger] lines_of(numbered(lines_of(x)))[i] == label(i as nat) + lines_of(x)[i],
{
    lemma_split_no_newline(x);
    let ls = lines_of(x);
    assert forall|k: int| 0 <= k < ls.len() implies no_newline(#[trigger] ls[k]) by {
        if k < split_lines(x).0.len() {
            assert(ls[k] == split_lines(x).0[k]);
        }
    }
    lemma_split_numbered(ls);
    assert forall|i: int| 0 <= i < ls.len() && !ends_in_cr(ls[i]) implies #[trigger] lines_of(numbered(ls))[i] == label(i as nat) + ls[i] by {
        lemma_label_plain(i as nat);
        let w = label(i as nat) + ls[i];
        if ls[i].len() == 0 {
            assert(w.last() == label(i as nat)[label(i as nat).len() - 1]);
        } else {
            assert(w.last() == ls[i].last());
        }
    }
}

} // verus!
