use vstd::prelude::*;
use crate::lexer::{
    all_digits, canonical_decimal, count_points, digits_value, escaped, lemma_first_point,
    lemma_strip_leading, lemma_strip_trailing, number_lexeme, or_zero, prepend_text, string_body, strip_leading_zeros, strip_trailing_zeros,
    Lexeme, LexError,
};
use crate::text::{append_str, chars_of, string_of};
use crate::value::{dict_view, list_view, lemma_view_array, lemma_view_dictionary, Entry, Tree, Value};

verus! {

/// The characters that stand for `c` inside a string literal.
pub open spec fn escape_char(c: char) -> Seq<char> {
    if c == '\n' {
        seq!['\\', 'n']
    } else if c == '\t' {
        seq!['\\', 't']
    } else if c == '"' {
        seq!['\\', '"']
    } else if c == '\\' {
        seq!['\\', '\\']
    } else {
        seq![c]
    }
}

pub open spec fn escape_text(s: Seq<char>) -> Seq<char>
    decreases s.len(),
{
    if s.len() == 0 {
        seq![]
    } else {
        escape_text(s.drop_last()) + escape_char(s.last())
    }
}

pub open spec fn digit_char(d: nat) -> char {
    if d == 0 {
        '0'
    } else if d == 1 {
        '1'
    } else if d == 2 {
        '2'
    } else if d == 3 {
        '3'
    } else if d == 4 {
        '4'
    } else if d == 5 {
        '5'
    } else if d == 6 {
        '6'
    } else if d == 7 {
        '7'
    } else if d == 8 {
        '8'
    } else {
        '9'
    }
}

/// The decimal digits of `n`, without leading zeros.
pub open spec fn digits(n: nat) -> Seq<char>
    decreases n,
{
    if n < 10 {
        seq![digit_char(n)]
    } else {
        digits(n / 10) + seq![digit_char(n % 10)]
    }
}

pub open spec fn int_text(n: int) -> Seq<char> {
    if n < 0 {
        seq!['-'] + digits((-n) as nat)
    } else {
        digits(n as nat)
    }
}

pub open spec fn tabs(n: nat) -> Seq<char> {
    Seq::new(n, |i: int| '\t')
}

pub open spec fn separator(n: nat) -> Seq<char> {
    seq![',', '\n'] + tabs(n)
}

/// The text of a value whose lines are indented by `n` tabs.
pub open spec fn render(t: Tree, n: nat) -> Seq<char>
    decreases t,
{
    match t {
        Tree::Int(i) => int_text(i),
        Tree::Dec(x) => x,
        Tree::Str(s) => seq!['"'] + escape_text(s) + seq!['"'],
        Tree::List(ts) => seq!['{', '\n'] + tabs(n + 1) + render_items(ts, n + 1) + seq!['\n'] + tabs(
            n,
        ) + seq!['}'],
        Tree::Dict(d) => seq!['\n'] + tabs(n + 1) + render_entries(d, n + 1) + seq!['\n'] + tabs(n),
    }
}

/// The values of an array, each indented by `n` tabs, separated by commas and line breaks.
pub open spec fn render_items(ts: Seq<Tree>, n: nat) -> Seq<char>
    decreases ts,
{
    if ts.len() == 0 {
        seq![]
    } else if ts.len() == 1 {
        render(ts[0], n)
    } else {
        render_items(ts.drop_last(), n) + separator(n) + render(ts.last(), n)
    }
}

pub open spec fn render_entry(e: (Seq<char>, Tree), n: nat) -> Seq<char>
    decreases e,
{
    e.0 + seq!['='] + render(e.1, n)
}

/// The `key=value` entries of a nested dictionary, separated by commas and line breaks.
pub open spec fn render_entries(d: Seq<(Seq<char>, Tree)>, n: nat) -> Seq<char>
    decreases d,
{
    if d.len() == 0 {
        seq![]
    } else if d.len() == 1 {
        render_entry(d[0], n)
    } else {
        render_entries(d.drop_last(), n) + separator(n) + render_entry(d.last(), n)
    }
}

/// The text of a document: one `key = value` line per entry.
pub open spec fn script(d: Seq<(Seq<char>, Tree)>) -> Seq<char>
    decreases d.len(),
{
    if d.len() == 0 {
        seq![]
    } else {
        script(d.drop_last()) + d.last().0 + seq![' ', '=', ' '] + render(d.last().1, 0) + seq!['\n']
    }
}

/// How deeply arrays and dictionaries nest in a value.
pub open spec fn depth(t: Tree) -> nat
    decreases t,
{
    match t {
        Tree::List(ts) => 1 + depth_items(ts),
        Tree::Dict(d) => 1 + depth_entries(d),
        _ => 0,
    }
}

pub open spec fn depth_items(ts: Seq<Tree>) -> nat
    decreases ts,
{
    if ts.len() == 0 {
        0
    } else {
        let a = depth_items(ts.drop_last());
        let b = depth(ts.last());
        if a < b {
            b
        } else {
            a
        }
    }
}

pub open spec fn depth_entries(d: Seq<(Seq<char>, Tree)>) -> nat
    decreases d,
{
    if d.len() == 0 {
        0
    } else {
        let a = depth_entries(d.drop_last());
        let b = depth(d.last().1);
        if a < b {
            b
        } else {
            a
        }
    }
}

proof fn lemma_depth_items(ts: Seq<Tree>, i: int)
    requires
        0 <= i < ts.len(),
    ensures
        depth(ts[i]) <= depth_items(ts),
    decreases ts.len(),
{
    if i < ts.len() - 1 {
        lemma_depth_items(ts.drop_last(), i);
    }
}

proof fn lemma_depth_entries(d: Seq<(Seq<char>, Tree)>, i: int)
    requires
        0 <= i < d.len(),
    ensures
        depth(d[i].1) <= depth_entries(d),
    decreases d.len(),
{
    if i < d.len() - 1 {
        lemma_depth_entries(d.drop_last(), i);
    }
}

fn push_tabs(out: &mut Vec<char>, n: usize)
    ensures
        final(out)@ == old(out)@ + tabs(n as nat),
{
    let mut k: usize = 0;
    while k < n
        invariant
            k <= n,
            out@ == old(out)@ + tabs(k as nat),
        decreases n - k,
    {
        out.push('\t');
        k += 1;
        assert(out@ =~= old(out)@ + tabs(k as nat));
    }
}

fn digit(d: u64) -> (c: char)
    requires
        d < 10,
    ensures
        c == digit_char(d as nat),
{
    if d == 0 {
        '0'
    } else if d == 1 {
        '1'
    } else if d == 2 {
        '2'
    } else if d == 3 {
        '3'
    } else if d == 4 {
        '4'
    } else if d == 5 {
        '5'
    } else if d == 6 {
        '6'
    } else if d == 7 {
        '7'
    } else if d == 8 {
        '8'
    } else {
        '9'
    }
}

fn push_digits(out: &mut Vec<char>, m: u64)
    ensures
        final(out)@ == old(out)@ + digits(m as nat),
    decreases m,
{
    if m >= 10 {
        push_digits(out, m / 10);
    }
    out.push(digit(m % 10));
    assert(out@ =~= old(out)@ + digits(m as nat));
}

fn push_int(out: &mut Vec<char>, n: i64)
    ensures
        final(out)@ == old(out)@ + int_text(n as int),
{
    if n < 0 {
        out.push('-');
        let m: i128 = -(n as i128);
        push_digits(out, m as u64);
        assert(out@ =~= old(out)@ + int_text(n as int));
    } else {
        push_digits(out, n as u64);
    }
}

fn push_escaped(out: &mut Vec<char>, s: &String)
    ensures
        final(out)@ == old(out)@ + escape_text(s@),
{
    let cs = chars_of(s.as_str());
    let mut k: usize = 0;
    assert(cs@.take(0) =~= seq![]);
    assert(out@ =~= old(out)@ + escape_text(cs@.take(0)));
    while k < cs.len()
        invariant
            k <= cs.len(),
            out@ == old(out)@ + escape_text(cs@.take(k as int)),
        decreases cs.len() - k,
    {
        let c = cs[k];
        if c == '\n' {
            out.push('\\');
            out.push('n');
        } else if c == '\t' {
            out.push('\\');
            out.push('t');
        } else if c == '"' {
            out.push('\\');
            out.push('"');
        } else if c == '\\' {
            out.push('\\');
            out.push('\\');
        } else {
            out.push(c);
        }
        assert(cs@.take(k + 1).drop_last() =~= cs@.take(k as int));
        k += 1;
        assert(out@ =~= old(out)@ + escape_text(cs@.take(k as int)));
    }
    assert(cs@.take(k as int) =~= s@);
}

/// Appends the text of `v`, with its lines indented by `indent` tabs, to `out`.
fn write_value(v: &Value, indent: usize, out: &mut Vec<char>)
    requires
        indent + depth(v.view()) < usize::MAX,
    ensures
        final(out)@ == old(out)@ + render(v.view(), indent as nat),
    decreases v,
{
    let ghost start = out@;
    match v {
        Value::Integer(n) => {
            push_int(out, *n);
        },
        Value::Float(d) => {
            append_str(out, d.text.as_str());
        },
        Value::String(s) => {
            out.push('"');
            push_escaped(out, s);
            out.push('"');
            assert(out@ =~= start + render(v.view(), indent as nat));
        },
        Value::Array(a) => {
            proof {
                lemma_view_array(*v);
                assert forall|i: int| 0 <= i < a.len() implies decreases_to!(*v => #[trigger] a[i]) by {
                    vstd::std_specs::vec::axiom_vec_index_decreases(*a, i);
                }
            }
            let ghost ts = list_view(a@);
            out.push('{');
            out.push('\n');
            push_tabs(out, indent + 1);
            let ghost head = out@;
            let mut k: usize = 0;
            assert(out@ =~= head + render_items(ts.take(0), (indent + 1) as nat));
            while k < a.len()
                invariant
                    k <= a.len(),
                    ts == list_view(a@),
                    indent + 1 + depth_items(ts) < usize::MAX,
                    out@ == head + render_items(ts.take(k as int), (indent + 1) as nat),
                    forall|i: int| 0 <= i < a.len() ==> decreases_to!(*v => #[trigger] a[i]),
                decreases a.len() - k,
            {
                let ghost before = out@;
                if k > 0 {
                    out.push(',');
                    out.push('\n');
                    push_tabs(out, indent + 1);
                }
                proof {
                    lemma_depth_items(ts, k as int);
                }
                write_value(&a[k], indent + 1, out);
                assert(ts.take(k + 1).drop_last() =~= ts.take(k as int));
                if k == 0 {
                    assert(out@ =~= head + render_items(ts.take(k + 1), (indent + 1) as nat));
                } else {
                    assert(out@ =~= head + render_items(ts.take(k + 1), (indent + 1) as nat));
                }
                k += 1;
            }
            assert(ts.take(k as int) =~= ts);
            out.push('\n');
            push_tabs(out, indent);
            out.push('}');
            assert(out@ =~= start + render(v.view(), indent as nat));
        },
        Value::Dictionary(d) => {
            proof {
                lemma_view_dictionary(*v);
                assert forall|i: int| 0 <= i < d.len() implies decreases_to!(*v => #[trigger] d[i].value) by {
                    vstd::std_specs::vec::axiom_vec_index_decreases(*d, i);
                }
            }
            let ghost es = dict_view(d@);
            out.push('\n');
            push_tabs(out, indent + 1);
            let ghost head = out@;
            let mut k: usize = 0;
            assert(out@ =~= head + render_entries(es.take(0), (indent + 1) as nat));
            while k < d.len()
                invariant
                    k <= d.len(),
                    es == dict_view(d@),
                    indent + 1 + depth_entries(es) < usize::MAX,
                    out@ == head + render_entries(es.take(k as int), (indent + 1) as nat),
                    forall|i: int| 0 <= i < d.len() ==> decreases_to!(*v => #[trigger] d[i].value),
                decreases d.len() - k,
            {
                if k > 0 {
                    out.push(',');
                    out.push('\n');
                    push_tabs(out, indent + 1);
                }
                proof {
                    lemma_depth_entries(es, k as int);
                }
                let ghost mid = out@;
                append_str(out, d[k].key.as_str());
                out.push('=');
                write_value(&d[k].value, indent + 1, out);
                assert(out@ =~= mid + render_entry(es[k as int], (indent + 1) as nat));
                assert(es.take(k + 1).drop_last() =~= es.take(k as int));
                assert(out@ =~= head + render_entries(es.take(k + 1), (indent + 1) as nat));
                k += 1;
            }
            assert(es.take(k as int) =~= es);
            out.push('\n');
            push_tabs(out, indent);
            assert(out@ =~= start + render(v.view(), indent as nat));
        },
    }
}

/// The text of a value whose lines are indented by `indent_level` tabs.
pub fn value_to_script(value: &Value, indent_level: usize) -> (r: String)
    requires
        indent_level + depth(value.view()) < usize::MAX,
    ensures
        r@ == render(value.view(), indent_level as nat),
{
    let mut out: Vec<char> = Vec::new();
    write_value(value, indent_level, &mut out);
    assert(out@ =~= render(value.view(), indent_level as nat));
    string_of(&out)
}

/// The text of a document: for each entry, in order, a line `key = value`.
pub fn reconstruct_script(doc: &Vec<Entry>) -> (r: String)
    requires
        forall|i: int| 0 <= i < doc.len() ==> depth(#[trigger] doc[i].value.view()) < usize::MAX,
    ensures
        r@ == script(dict_view(doc@)),
{
    let ghost es = dict_view(doc@);
    let mut out: Vec<char> = Vec::new();
    let mut k: usize = 0;
    assert(out@ =~= script(es.take(0)));
    while k < doc.len()
        invariant
            k <= doc.len(),
            es == dict_view(doc@),
            forall|i: int| 0 <= i < doc.len() ==> depth(#[trigger] doc[i].value.view()) < usize::MAX,
            out@ == script(es.take(k as int)),
        decreases doc.len() - k,
    {
        let ghost before = out@;
        append_str(&mut out, doc[k].key.as_str());
        out.push(' ');
        out.push('=');
        out.push(' ');
        write_value(&doc[k].value, 0, &mut out);
        out.push('\n');
        assert(es.take(k + 1).drop_last() =~= es.take(k as int));
        assert(out@ =~= script(es.take(k + 1)));
        k += 1;
    }
    assert(es.take(k as int) =~= es);
    string_of(&out)
}

proof fn lemma_escape_text_front(s: Seq<char>)
    requires
        s.len() > 0,
    ensures
        escape_text(s) == escape_char(s[0]) + escape_text(s.drop_first()),
    decreases s.len(),
{
    if s.len() == 1 {
        assert(s.drop_first() =~= seq![]);
        assert(s.drop_last() =~= seq![]);
        assert(escape_text(s) =~= escape_char(s[0]) + escape_text(s.drop_first()));
    } else {
        lemma_escape_text_front(s.drop_last());
        assert(s.drop_first().drop_last() =~= s.drop_last().drop_first());
        assert(escape_text(s) =~= escape_char(s[0]) + escape_text(s.drop_first()));
    }
}

/// The body of a printed string literal reads back, through the lexer's
/// escapes, as exactly the string it was printed from, ending after its
/// closing quote, whatever text stands before and after it.
pub proof fn lemma_string_literal_reads_back(p: Seq<char>, s: Seq<char>, rest: Seq<char>)
    ensures
        string_body(p + escape_text(s) + seq!['"'] + rest, p.len() as int) == Ok::<
            (Seq<char>, int),
            LexError,
        >((s, (p.len() + escape_text(s).len() + 1) as int)),
    decreases s.len(),
{
    let t = p + escape_text(s) + seq!['"'] + rest;
    if s.len() == 0 {
        assert(s =~= seq![]);
        assert(escape_text(s) =~= seq![]);
        assert(t[p.len() as int] == '"');
    } else {
        lemma_escape_text_front(s);
        let c = s[0];
        let e = escape_char(c);
        let p2 = p + e;
        assert(t =~= p2 + escape_text(s.drop_first()) + seq!['"'] + rest);
        lemma_string_literal_reads_back(p2, s.drop_first(), rest);
        assert(seq![c] + s.drop_first() =~= s);
        let i = p.len() as int;
        let r = string_body(t, p2.len() as int);
        if c == '\n' || c == '\t' || c == '"' || c == '\\' {
            assert(t[i] == e[0]);
            assert(t[i + 1] == e[1]);
            assert(escaped(t[i + 1]) == Some(c));
            assert(string_body(t, i) == prepend_text(seq![c], r));
        } else {
            assert(t[i] == e[0]);
            assert(string_body(t, i) == prepend_text(seq![c], r));
        }
    }
}

proof fn lemma_digit_char(d: nat)
    requires
        d < 10,
    ensures
        digit_char(d) as int - '0' as int == d,
        '0' <= digit_char(d) <= '9',
{
}

proof fn lemma_digits(m: nat)
    ensures
        digits(m).len() > 0,
        all_digits(digits(m)),
        count_points(digits(m)) == 0,
        digits_value(digits(m)) == m,
        digits(m)[0] != '-',
    decreases m,
{
    lemma_digit_char(m % 10);
    if m >= 10 {
        lemma_digits(m / 10);
        let d = digits(m);
        assert(d.drop_last() =~= digits(m / 10));
        assert(d.last() == digit_char(m % 10));
        assert(d[0] == digits(m / 10)[0]);
        assert(m == (m / 10) * 10 + m % 10);
        assert(count_points(d) == count_points(d.drop_last()));
        assert(digits_value(d) == digits_value(d.drop_last()) * 10 + (d.last() as int - '0' as int));
        assert forall|k: int| 0 <= k < d.len() implies ('0' <= #[trigger] d[k] <= '9') by {
            if k < d.len() - 1 {
                assert(d[k] == digits(m / 10)[k]);
            }
        }
    } else {
        lemma_digit_char(m);
        let d = digits(m);
        assert(d.drop_last() =~= seq![]);
        assert(d.last() == digit_char(m));
        assert(count_points(d.drop_last()) == 0);
        assert(digits_value(d.drop_last()) == 0);
        assert(count_points(d) == count_points(d.drop_last()));
        assert(digits_value(d) == digits_value(d.drop_last()) * 10 + (d.last() as int - '0' as int));
    }
}

/// The text of a printed integer is read back by the lexer as that integer.
pub proof fn lemma_integer_reads_back(n: int)
    requires
        i64::MIN <= n <= i64::MAX,
    ensures
        number_lexeme(int_text(n)) == Ok::<Lexeme, LexError>(Lexeme::Int(n)),
{
    if n < 0 {
        lemma_digits((-n) as nat);
        let t = int_text(n);
        assert(t.drop_first() =~= digits((-n) as nat));
    } else {
        lemma_digits(n as nat);
    }
}

proof fn lemma_count_points_digits(t: Seq<char>)
    requires
        all_digits(t),
    ensures
        count_points(t) == 0,
    decreases t.len(),
{
    if t.len() > 0 {
        assert(all_digits(t.drop_last()));
        lemma_count_points_digits(t.drop_last());
    }
}

proof fn lemma_count_points_concat(a: Seq<char>, b: Seq<char>)
    ensures
        count_points(a + b) == count_points(a) + count_points(b),
    decreases b.len(),
{
    if b.len() == 0 {
        assert(a + b =~= a);
    } else {
        lemma_count_points_concat(a, b.drop_last());
        assert((a + b).drop_last() =~= a + b.drop_last());
    }
}

/// The canonical text of a decimal is read back by the lexer as that same text.
pub proof fn lemma_decimal_reads_back(neg: bool, w: Seq<char>, f: Seq<char>)
    requires
        all_digits(w),
        all_digits(f),
    ensures
        number_lexeme(canonical_decimal(neg, w, f)) == Ok::<Lexeme, LexError>(
            Lexeme::Float(canonical_decimal(neg, w, f)),
        ),
{
    let sw = strip_leading_zeros(w);
    let sf = strip_trailing_zeros(f);
    lemma_strip_leading(w);
    lemma_strip_trailing(f);
    let ww = or_zero(sw);
    let ff = or_zero(sf);
    assert(all_digits(ww));
    assert(all_digits(ff));
    if sw.len() == 0 {
        assert(ww.drop_first() =~= seq![]);
        assert(strip_leading_zeros(ww.drop_first()) =~= seq![]);
    }
    assert(or_zero(strip_leading_zeros(ww)) == ww);
    if sf.len() == 0 {
        assert(ff.drop_last() =~= seq![]);
        assert(strip_trailing_zeros(ff.drop_last()) =~= seq![]);
    }
    assert(or_zero(strip_trailing_zeros(ff)) == ff);
    let t = canonical_decimal(neg, w, f);
    let body = ww + seq!['.'] + ff;
    assert(t =~= (if neg { seq!['-'] } else { seq![] }) + body);
    assert('0' <= ww[0] <= '9');
    assert(t.len() > 0 && (t[0] == '-') == neg);
    if neg {
        assert(t.drop_first() =~= body);
    }
    lemma_count_points_digits(ww);
    lemma_count_points_digits(ff);
    lemma_count_points_concat(ww, seq!['.']);
    lemma_count_points_concat(ww + seq!['.'], ff);
    assert(seq!['.'].drop_last() =~= Seq::<char>::empty());
    assert(count_points(Seq::<char>::empty()) == 0);
    assert(count_points(seq!['.']) == 1);
    assert forall|m: int| 0 <= m < ww.len() implies #[trigger] body[m] != '.' by {
        assert(body[m] == ww[m]);
    }
    lemma_first_point(body, ww.len() as int);
    assert(body.take(ww.len() as int) =~= ww);
    assert(body.skip(ww.len() as int + 1) =~= ff);
    assert(canonical_decimal(neg, ww, ff) =~= t);
}

} // verus!
