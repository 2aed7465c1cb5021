use vstd::prelude::*;
use crate::lexer::{Token, TokenCategory, TokenSpec, tokens_view};
use crate::numbering::{decimal, decimal_exec};
use crate::text::{chars_of, same_chars, string_of};
use vstd::string::StrSliceExecFns;

verus! {

/// First descriptor code of each category's band.
pub const KEYWORD_BASE: u128 = 10;
pub const IDENTIFIER_BASE: u128 = 20;
pub const NUMBER_BASE: u128 = 30;
pub const OPERATOR_BASE: u128 = 40;
pub const STRING_BASE: u128 = 50;
pub const SEPARATOR_BASE: u128 = 60;

pub open spec fn base(c: TokenCategory) -> nat {
    match c {
        TokenCategory::Keyword => KEYWORD_BASE as nat,
        TokenCategory::Identifier => IDENTIFIER_BASE as nat,
        TokenCategory::NumericConstant => NUMBER_BASE as nat,
        TokenCategory::Operator => OPERATOR_BASE as nat,
        TokenCategory::StringLiteral => STRING_BASE as nat,
        TokenCategory::Separator => SEPARATOR_BASE as nat,
    }
}

pub fn base_exec(c: TokenCategory) -> (r: u128)
    ensures
        r == base(c),
{
    match c {
        TokenCategory::Keyword => KEYWORD_BASE,
        TokenCategory::Identifier => IDENTIFIER_BASE,
        TokenCategory::NumericConstant => NUMBER_BASE,
        TokenCategory::Operator => OPERATOR_BASE,
        TokenCategory::StringLiteral => STRING_BASE,
        TokenCategory::Separator => SEPARATOR_BASE,
    }
}

/// A distinct lexeme of a category, with the code it was given.
pub struct EntrySpec {
    pub category: TokenCategory,
    pub text: Seq<char>,
    pub code: nat,
}

pub struct Entry {
    pub category: TokenCategory,
    pub lexeme: Vec<char>,
    pub code: u128,
}

impl View for Entry {
    type V = EntrySpec;

    open spec fn view(&self) -> EntrySpec {
        EntrySpec { category: self.category, text: self.lexeme@, code: self.code as nat }
    }
}

pub open spec fn entries_view(es: Seq<Entry>) -> Seq<EntrySpec> {
    es.map_values(|e: Entry| e@)
}

/// Index of the last entry for this lexeme and category.
pub open spec fn find(es: Seq<EntrySpec>, c: TokenCategory, t: Seq<char>) -> Option<int>
    decreases es.len(),
{
    if es.len() == 0 {
        None
    } else if es.last().category == c && es.last().text == t {
        Some(es.len() - 1)
    } else {
        find(es.drop_last(), c, t)
    }
}

/// How many entries belong to category `c`.
pub open spec fn count(es: Seq<EntrySpec>, c: TokenCategory) -> nat
    decreases es.len(),
{
    if es.len() == 0 {
        0
    } else {
        count(es.drop_last(), c) + if es.last().category == c { 1nat } else { 0nat }
    }
}

/// The entries in order of first appearance, and the code of each token.
pub open spec fn describe(ts: Seq<TokenSpec>) -> (Seq<EntrySpec>, Seq<nat>)
    decreases ts.len(),
{
    if ts.len() == 0 {
        (Seq::empty(), Seq::empty())
    } else {
        let p = describe(ts.drop_last());
        let t = ts.last();
        match find(p.0, t.category, t.text) {
            Some(k) => (p.0, p.1.push(p.0[k].code)),
            None => {
                let code = base(t.category) + count(p.0, t.category);
                (p.0.push(EntrySpec { category: t.category, text: t.text, code }), p.1.push(code))
            },
        }
    }
}

pub proof fn lemma_describe_len(ts: Seq<TokenSpec>)
    ensures
        describe(ts).1.len() == ts.len(),
        describe(ts).0.len() <= ts.len(),
        forall|c: TokenCategory| count(describe(ts).0, c) <= describe(ts).0.len(),
    decreases ts.len(),
{
    if ts.len() > 0 {
        lemma_describe_len(ts.drop_last());
        let p = describe(ts.drop_last());
        assert forall|c: TokenCategory| count(describe(ts).0, c) <= describe(ts).0.len() by {
            if find(p.0, ts.last().category, ts.last().text) is None {
                let e = EntrySpec { category: ts.last().category, text: ts.last().text, code: base(ts.last().category) + count(p.0, ts.last().category) };
                assert(p.0.push(e).drop_last() =~= p.0);
                assert(describe(ts).0 == p.0.push(e));
                assert(count(p.0.push(e), c) <= count(p.0, c) + 1);
            }
        }
    }
}

/// After a pass, every token's lexeme and category lead to an entry holding the
/// code that token was given.
proof fn lemma_describe_finds(ts: Seq<TokenSpec>)
    ensures
        forall|k: int| 0 <= k < ts.len() ==> {
            let d = describe(ts);
            &&& find(d.0, (#[trigger] ts[k]).category, ts[k].text) matches Some(q)
            &&& 0 <= q < d.0.len()
            &&& d.0[q].code == d.1[k]
        },
    decreases ts.len(),
{
    if ts.len() > 0 {
        let front = ts.drop_last();
        lemma_describe_finds(front);
        lemma_find_in_range(describe(front).0, ts.last().category, ts.last().text);
        lemma_describe_len(front);
        let p = describe(front);
        let t = ts.last();
        let d = describe(ts);
        let n = ts.len() - 1;
        assert forall|k: int| 0 <= k < ts.len() implies {
            &&& find(d.0, (#[trigger] ts[k]).category, ts[k].text) matches Some(q)
            &&& 0 <= q < d.0.len()
            &&& d.0[q].code == d.1[k]
        } by {
            if k < n {
                assert(ts[k] == front[k]);
                if find(p.0, t.category, t.text) is None {
                    assert(d.0.drop_last() =~= p.0);
                    if ts[k].category == t.category && ts[k].text == t.text {
                        assert(false);
                    }
                }
            }
        }
    }
}

proof fn lemma_find_in_range(es: Seq<EntrySpec>, c: TokenCategory, t: Seq<char>)
    ensures
        find(es, c, t) matches Some(q) ==> 0 <= q < es.len() && es[q].category == c && es[q].text == t,
    decreases es.len(),
{
    if es.len() > 0 {
        lemma_find_in_range(es.drop_last(), c, t);
    }
}

/// Within one pass, a lexeme seen again in the same category gets the code of its
/// first occurrence.
pub proof fn lemma_code_stable(ts: Seq<TokenSpec>, i: int, j: int)
    requires
        0 <= i < j < ts.len(),
        ts[i].category == ts[j].category,
        ts[i].text == ts[j].text,
    ensures
        describe(ts).1[j] == describe(ts).1[i],
{
    lemma_describe_finds(ts);
    assert(ts[i] == ts[i]);
    assert(ts[j] == ts[j]);
}

fn cat_index(c: TokenCategory) -> (r: usize)
    ensures
        r < 6,
        r == cat_index_spec(c),
{
    match c {
        TokenCategory::Keyword => 0,
        TokenCategory::Identifier => 1,
        TokenCategory::NumericConstant => 2,
        TokenCategory::Operator => 3,
        TokenCategory::StringLiteral => 4,
        TokenCategory::Separator => 5,
    }
}

pub open spec fn cat_index_spec(c: TokenCategory) -> int {
    match c {
        TokenCategory::Keyword => 0,
        TokenCategory::Identifier => 1,
        TokenCategory::NumericConstant => 2,
        TokenCategory::Operator => 3,
        TokenCategory::StringLiteral => 4,
        TokenCategory::Separator => 5,
    }
}

fn find_exec(es: &Vec<Entry>, c: TokenCategory, t: &Vec<char>) -> (r: Option<usize>)
    ensures
        match r {
            Some(k) => find(entries_view(es@), c, t@) == Some(k as int) && k < es@.len(),
            None => find(entries_view(es@), c, t@) is None,
        },
{
    let mut k: usize = es.len();
    assert(entries_view(es@).take(k as int) =~= entries_view(es@));
    while k > 0
        invariant
            k <= es@.len(),
            find(entries_view(es@), c, t@) == find(entries_view(es@).take(k as int), c, t@),
        decreases k,
    {
        assert(entries_view(es@).take(k as int).drop_last() =~= entries_view(es@).take(k - 1));
        if es[k - 1].category == c && same_chars(t, es[k - 1].lexeme.as_slice()) {
            return Some(k - 1);
        }
        k -= 1;
    }
    None
}

/// The entries and the code of each token, in order.
pub fn describe_exec(tokens: &Vec<Token>) -> (r: (Vec<Entry>, Vec<u128>))
    ensures
        entries_view(r.0@) == describe(tokens_view(tokens@)).0,
        r.1@.map_values(|c: u128| c as nat) == describe(tokens_view(tokens@)).1,
{
    let ghost ts = tokens_view(tokens@);
    let mut es: Vec<Entry> = Vec::new();
    let mut codes: Vec<u128> = Vec::new();
    let mut counts: Vec<usize> = vec![0, 0, 0, 0, 0, 0];
    let mut i: usize = 0;
    while i < tokens.len()
        invariant
            i <= tokens@.len(),
            ts == tokens_view(tokens@),
            entries_view(es@) == describe(ts.take(i as int)).0,
            codes@.map_values(|c: u128| c as nat) == describe(ts.take(i as int)).1,
            counts@.len() == 6,
            forall|c: TokenCategory| #[trigger] counts@[cat_index_spec(c)] == count(entries_view(es@), c),
            es@.len() <= i,
        decreases tokens@.len() - i,
    {
        proof {
            lemma_describe_len(ts.take(i as int));
            assert(ts.take(i + 1).drop_last() =~= ts.take(i as int));
        }
        let t = &tokens[i];
        let text = chars_of(t.lexeme.as_str());
        let c = t.category;
        match find_exec(&es, c, &text) {
            Some(k) => {
                let code = es[k].code;
                codes.push(code);
                assert(codes@.map_values(|c: u128| c as nat) =~= describe(ts.take(i as int)).1.push(code as nat));
            },
            None => {
                let ci = cat_index(c);
                let n = counts[ci];
                assert(n == count(entries_view(es@), c));
                let code = base_exec(c) + n as u128;
                let ghost old_es = entries_view(es@);
                es.push(Entry { category: c, lexeme: text, code });
                codes.push(code);
                counts.set(ci, n + 1);
                proof {
                    let e = EntrySpec { category: c, text: t.lexeme@, code: code as nat };
                    assert(entries_view(es@) =~= old_es.push(e));
                    assert(old_es.push(e).drop_last() =~= old_es);
                    assert(codes@.map_values(|c: u128| c as nat) =~= describe(ts.take(i as int)).1.push(code as nat));
                    assert forall|c2: TokenCategory| #[trigger] counts@[cat_index_spec(c2)] == count(entries_view(es@), c2) by {
                        if c2 != c {
                            assert(cat_index_spec(c2) != cat_index_spec(c));
                        }
                    }
                }
            },
        }
        i += 1;
    }
    assert(ts.take(i as int) =~= ts);
    (es, codes)
}

/// The lexemes of category `c`, in order of first appearance, one per line.
pub open spec fn listing(es: Seq<EntrySpec>, c: TokenCategory) -> Seq<char>
    decreases es.len(),
{
    if es.len() == 0 {
        Seq::empty()
    } else if es.last().category == c {
        listing(es.drop_last(), c) + es.last().text.push('\n')
    } else {
        listing(es.drop_last(), c)
    }
}

pub open spec fn category_name(c: TokenCategory) -> Seq<char> {
    match c {
        TokenCategory::Keyword => "keyword"@,
        TokenCategory::Identifier => "identifier"@,
        TokenCategory::NumericConstant => "numeric constant"@,
        TokenCategory::Operator => "operator"@,
        TokenCategory::StringLiteral => "string literal"@,
        TokenCategory::Separator => "separator"@,
    }
}

fn category_name_exec(c: TokenCategory) -> (r: Vec<char>)
    ensures
        r@ == category_name(c),
{
    match c {
        TokenCategory::Keyword => chars_of("keyword"),
        TokenCategory::Identifier => chars_of("identifier"),
        TokenCategory::NumericConstant => chars_of("numeric constant"),
        TokenCategory::Operator => chars_of("operator"),
        TokenCategory::StringLiteral => chars_of("string literal"),
        TokenCategory::Separator => chars_of("separator"),
    }
}

/// One line `code lexeme category` per entry, in the order the codes were given.
pub open spec fn descriptor_lines(es: Seq<EntrySpec>) -> Seq<char>
    decreases es.len(),
{
    if es.len() == 0 {
        Seq::empty()
    } else {
        let e = es.last();
        descriptor_lines(es.drop_last()) + decimal(e.code) + seq![' '] + e.text + seq![' ']
            + category_name(e.category).push('\n')
    }
}

pub open spec fn token_end(t: TokenSpec) -> nat {
    t.offset + t.text.len()
}

/// Where the text after the last of `ts` starts.
pub open spec fn after_last(ts: Seq<TokenSpec>) -> nat {
    if ts.len() == 0 {
        0
    } else {
        token_end(ts.last())
    }
}

/// Tokens that lie in `s` in order, without overlapping.
pub open spec fn laid_out(s: Seq<char>, ts: Seq<TokenSpec>) -> bool {
    &&& forall|k: int| 0 < k < ts.len() ==> token_end(ts[k - 1]) <= (#[trigger] ts[k]).offset
    &&& forall|k: int| 0 <= k < ts.len() ==> token_end(#[trigger] ts[k]) <= s.len()
}

/// `s` up to the end of the last of `ts`, each token written as its code.
pub open spec fn render(s: Seq<char>, ts: Seq<TokenSpec>, cs: Seq<nat>) -> Seq<char>
    decreases ts.len(),
{
    if ts.len() == 0 {
        Seq::empty()
    } else {
        let front = ts.drop_last();
        render(s, front, cs.drop_last()) + s.subrange(after_last(front) as int, ts.last().offset as int)
            + decimal(cs.last())
    }
}

/// `s` with every token replaced by its code, the text between tokens kept.
pub open spec fn pseudocode(s: Seq<char>, ts: Seq<TokenSpec>, cs: Seq<nat>) -> Seq<char> {
    render(s, ts, cs) + s.subrange(after_last(ts) as int, s.len() as int)
}

/// The six category listings, the descriptor table and the pseudocode.
pub struct DescriptorTable {
    pub keywords: String,
    pub identifiers: String,
    pub consts: String,
    pub operators: String,
    pub strings: String,
    pub separators: String,
    pub descriptors: String,
    pub pseudocode: String,
}

fn push_all(out: &mut Vec<char>, v: &Vec<char>)
    ensures
        final(out)@ == old(out)@ + v@,
{
    let mut w = v.clone();
    assert(w@ == v@);
    out.append(&mut w);
}

fn listing_exec(es: &Vec<Entry>, c: TokenCategory) -> (r: String)
    ensures
        r@ == listing(entries_view(es@), c),
{
    let mut out: Vec<char> = Vec::new();
    let mut k: usize = 0;
    while k < es.len()
        invariant
            k <= es@.len(),
            out@ == listing(entries_view(es@).take(k as int), c),
        decreases es@.len() - k,
    {
        assert(entries_view(es@).take(k + 1).drop_last() =~= entries_view(es@).take(k as int));
        if es[k].category == c {
            push_all(&mut out, &es[k].lexeme);
            out.push('\n');
        }
        k += 1;
    }
    assert(entries_view(es@).take(k as int) =~= entries_view(es@));
    string_of(&out)
}

fn descriptor_lines_exec(es: &Vec<Entry>) -> (r: String)
    ensures
        r@ == descriptor_lines(entries_view(es@)),
{
    let mut out: Vec<char> = Vec::new();
    let mut k: usize = 0;
    while k < es.len()
        invariant
            k <= es@.len(),
            out@ == descriptor_lines(entries_view(es@).take(k as int)),
        decreases es@.len() - k,
    {
        assert(entries_view(es@).take(k + 1).drop_last() =~= entries_view(es@).take(k as int));
        let e = &es[k];
        let ghost before = out@;
        push_all(&mut out, &decimal_exec(e.code));
        out.push(' ');
        push_all(&mut out, &e.lexeme);
        out.push(' ');
        push_all(&mut out, &category_name_exec(e.category));
        out.push('\n');
        proof {
            let ev = entries_view(es@).take(k + 1).last();
            assert(ev == e@);
            assert(out@ =~= before + decimal(ev.code) + seq![' '] + ev.text + seq![' '] + category_name(ev.category).push('\n'));
        }
        k += 1;
    }
    assert(entries_view(es@).take(k as int) =~= entries_view(es@));
    string_of(&out)
}

fn push_range(out: &mut Vec<char>, s: &Vec<char>, from: usize, to: usize)
    requires
        from <= to <= s@.len(),
    ensures
        final(out)@ == old(out)@ + s@.subrange(from as int, to as int),
{
    let ghost before = out@;
    let mut j: usize = from;
    while j < to
        invariant
            from <= j <= to <= s@.len(),
            out@ == before + s@.subrange(from as int, j as int),
        decreases to - j,
    {
        out.push(s[j]);
        j += 1;
        assert(out@ =~= before + s@.subrange(from as int, j as int));
    }
}

proof fn lemma_render_step(s: Seq<char>, ts: Seq<TokenSpec>, cs: Seq<nat>, k: int)
    requires
        0 <= k < ts.len(),
        cs.len() == ts.len(),
    ensures
        render(s, ts.take(k + 1), cs.take(k + 1)) == render(s, ts.take(k), cs.take(k)) + s.subrange(
            after_last(ts.take(k)) as int,
            ts[k].offset as int,
        ) + decimal(cs[k]),
        after_last(ts.take(k + 1)) == token_end(ts[k]),
        k > 0 ==> after_last(ts.take(k)) == token_end(ts[k - 1]),
{
    assert(ts.take(k + 1).drop_last() =~= ts.take(k));
    assert(cs.take(k + 1).drop_last() =~= cs.take(k));
}

fn pseudocode_exec(s: &Vec<char>, tokens: &Vec<Token>, codes: &Vec<u128>) -> (r: String)
    requires
        laid_out(s@, tokens_view(tokens@)),
        codes@.len() == tokens@.len(),
    ensures
        r@ == pseudocode(s@, tokens_view(tokens@), codes@.map_values(|c: u128| c as nat)),
{
    let ghost ts = tokens_view(tokens@);
    let ghost cs = codes@.map_values(|c: u128| c as nat);
    let mut out: Vec<char> = Vec::new();
    let mut at: usize = 0;
    let mut k: usize = 0;
    while k < tokens.len()
        invariant
            k <= tokens@.len() == codes@.len(),
            ts == tokens_view(tokens@),
            cs == codes@.map_values(|c: u128| c as nat),
            laid_out(s@, ts),
            at == after_last(ts.take(k as int)),
            at <= s@.len(),
            k < ts.len() ==> at <= ts[k as int].offset,
            out@ == render(s@, ts.take(k as int), cs.take(k as int)),
        decreases tokens@.len() - k,
    {
        let t = &tokens[k];
        let n = t.lexeme.as_str().unicode_len();
        let slen = s.len();
        proof {
            assert(ts[k as int] == t@);
            assert(token_end(ts[k as int]) <= s@.len());
            assert(t.offset + n <= slen);
            lemma_render_step(s@, ts, cs, k as int);
            if k + 1 < ts.len() {
                assert(token_end(ts[k as int]) <= ts[k + 1].offset);
            }
        }
        push_range(&mut out, s, at, t.offset);
        push_all(&mut out, &decimal_exec(codes[k]));
        at = t.offset + n;
        k += 1;
    }
    assert(ts.take(k as int) =~= ts);
    assert(cs.take(k as int) =~= cs);
    push_range(&mut out, s, at, s.len());
    string_of(&out)
}

/// Gives every distinct lexeme of a category a code, from the category's base on in
/// order of first appearance, and renders the listings, the descriptor table, and
/// `text` with each token replaced by its code.
pub fn build_tables(text: &String, tokens: &Vec<Token>) -> (r: DescriptorTable)
    requires
        laid_out(text@, tokens_view(tokens@)),
    ensures
        ({
            let d = describe(tokens_view(tokens@));
            &&& r.keywords@ == listing(d.0, TokenCategory::Keyword)
            &&& r.identifiers@ == listing(d.0, TokenCategory::Identifier)
            &&& r.consts@ == listing(d.0, TokenCategory::NumericConstant)
            &&& r.operators@ == listing(d.0, TokenCategory::Operator)
            &&& r.strings@ == listing(d.0, TokenCategory::StringLiteral)
            &&& r.separators@ == listing(d.0, TokenCategory::Separator)
            &&& r.descriptors@ == descriptor_lines(d.0)
            &&& r.pseudocode@ == pseudocode(text@, tokens_view(tokens@), d.1)
        }),
{
    let (es, codes) = describe_exec(tokens);
    proof {
        lemma_describe_len(tokens_view(tokens@));
    }
    let s = chars_of(text.as_str());
    DescriptorTable {
        keywords: listing_exec(&es, TokenCategory::Keyword),
        identifiers: listing_exec(&es, TokenCategory::Identifier),
        consts: listing_exec(&es, TokenCategory::NumericConstant),
        operators: listing_exec(&es, TokenCategory::Operator),
        strings: listing_exec(&es, TokenCategory::StringLiteral),
        separators: listing_exec(&es, TokenCategory::Separator),
        descriptors: descriptor_lines_exec(&es),
        pseudocode: pseudocode_exec(&s, tokens, &codes),
    }
}

} // verus!
