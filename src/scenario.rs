use vstd::prelude::*;
use crate::text::{has_prefix, same_text};
use crate::value::{
    dict_view, find_key, lemma_first_index,
    lemma_set_value, lemma_view_array, lemma_view_dictionary, list_view, lookup, set_value, Entry,
    Tree, Value,
};

verus! {

/// Why the dialogue of a tree could not be read or replaced.
#[derive(PartialEq, Eq, Structural, Clone, Copy, Debug)]
pub enum TreeError {
    MissingField,
    TypeMismatch,
    ExhaustedInput,
    UnusedInput,
}

/// The levels of the path from the `ast` array down to the dialogue strings:
/// the `ast` array itself,
pub const AST: usize = 0;

/// a block wrapper dictionary,
pub const WRAPPER: usize = 1;

/// the item array of a block,
pub const ITEMS: usize = 2;

/// an item, whose `text` array is visited,
pub const ITEM: usize = 3;

/// a text block, whose `ja` array is visited,
pub const TEXT_BLOCK: usize = 4;

/// a row of the `ja` array,
pub const ROW: usize = 5;

/// and a leaf, which is dialogue when it is a string.
pub const LEAF: usize = 6;

pub open spec fn block_key(k: Seq<char>) -> bool {
    "block_"@.len() <= k.len() && k.take("block_"@.len() as int) == "block_"@
}

/// What stands in the place of a wrapper entry that is not a block: it holds no dialogue.
pub open spec fn hole() -> Tree {
    Tree::Int(0)
}

pub open spec fn field_kids(t: Tree, k: Seq<char>) -> Seq<Tree> {
    match t {
        Tree::Dict(d) => match lookup(d, k) {
            Some(Tree::List(a)) => a,
            _ => seq![],
        },
        _ => seq![],
    }
}

/// The nodes that the path visits below `t`, a node at level `lvl`.
pub open spec fn kids(t: Tree, lvl: usize) -> Seq<Tree> {
    if lvl == AST || lvl == ITEMS || lvl == ROW {
        match t {
            Tree::List(a) => a,
            _ => seq![],
        }
    } else if lvl == WRAPPER {
        match t {
            Tree::Dict(d) => Seq::new(
                d.len(),
                |i: int|
                    if block_key(d[i].0) {
                        d[i].1
                    } else {
                        hole()
                    },
            ),
            _ => seq![],
        }
    } else if lvl == ITEM {
        field_kids(t, "text"@)
    } else if lvl == TEXT_BLOCK {
        field_kids(t, "ja"@)
    } else {
        seq![]
    }
}

pub open spec fn with_field_kids(t: Tree, k: Seq<char>, ks: Seq<Tree>) -> Tree {
    match t {
        Tree::Dict(d) => match lookup(d, k) {
            Some(Tree::List(_)) => Tree::Dict(set_value(d, k, Tree::List(ks))),
            _ => t,
        },
        _ => t,
    }
}

/// `t` with the nodes that the path visits below it replaced by `ks`.
pub open spec fn with_kids(t: Tree, lvl: usize, ks: Seq<Tree>) -> Tree {
    if lvl == AST || lvl == ITEMS || lvl == ROW {
        match t {
            Tree::List(_) => Tree::List(ks),
            _ => t,
        }
    } else if lvl == WRAPPER {
        match t {
            Tree::Dict(d) => Tree::Dict(
                Seq::new(
                    d.len(),
                    |i: int|
                        if block_key(d[i].0) {
                            (d[i].0, ks[i])
                        } else {
                            d[i]
                        },
                ),
            ),
            _ => t,
        }
    } else if lvl == ITEM {
        with_field_kids(t, "text"@, ks)
    } else if lvl == TEXT_BLOCK {
        with_field_kids(t, "ja"@, ks)
    } else {
        t
    }
}

/// The dialogue strings below `t`, a node at level `lvl`, in visiting order.
pub open spec fn leaves(t: Tree, lvl: usize) -> Seq<Seq<char>>
    decreases LEAF + 1 - lvl, 0int, 0int,
{
    if lvl >= LEAF {
        match t {
            Tree::Str(s) => seq![s],
            _ => seq![],
        }
    } else {
        leaves_all(kids(t, lvl), (lvl + 1) as usize)
    }
}

/// The dialogue strings below each of `ts`, nodes at level `lvl`, one after another.
pub open spec fn leaves_all(ts: Seq<Tree>, lvl: usize) -> Seq<Seq<char>>
    decreases LEAF + 1 - lvl, 1int, ts.len(),
{
    if lvl > LEAF || ts.len() == 0 {
        seq![]
    } else {
        leaves_all(ts.drop_last(), lvl) + leaves(ts.last(), lvl)
    }
}

/// `t` with its dialogue strings replaced, in visiting order, by `l[pos..]`;
/// with the position after the last string used.
pub open spec fn fill(t: Tree, lvl: usize, l: Seq<Seq<char>>, pos: int) -> (Tree, int)
    decreases LEAF + 1 - lvl, 0int, 0int,
{
    if lvl >= LEAF {
        match t {
            Tree::Str(_) => if 0 <= pos < l.len() {
                (Tree::Str(l[pos]), pos + 1)
            } else {
                (t, pos)
            },
            _ => (t, pos),
        }
    } else {
        let (ks, p) = fill_all(kids(t, lvl), (lvl + 1) as usize, l, pos);
        (with_kids(t, lvl, ks), p)
    }
}

pub open spec fn fill_all(ts: Seq<Tree>, lvl: usize, l: Seq<Seq<char>>, pos: int) -> (Seq<Tree>, int)
    decreases LEAF + 1 - lvl, 1int, ts.len(),
{
    if lvl > LEAF || ts.len() == 0 {
        (ts, pos)
    } else {
        let (a, p) = fill_all(ts.drop_last(), lvl, l, pos);
        let (x, q) = fill(ts.last(), lvl, l, p);
        (a.push(x), q)
    }
}

pub open spec fn all_dicts(ws: Seq<Tree>) -> bool {
    forall|i: int| 0 <= i < ws.len() ==> #[trigger] ws[i] is Dict
}

/// The dialogue strings of a document, or why it has none.
pub open spec fn extracted(doc: Seq<(Seq<char>, Tree)>) -> Result<Seq<Seq<char>>, TreeError> {
    match lookup(doc, "ast"@) {
        None => Err(TreeError::MissingField),
        Some(Tree::List(ws)) => if all_dicts(ws) {
            Ok(leaves(Tree::List(ws), AST))
        } else {
            Err(TreeError::TypeMismatch)
        },
        Some(_) => Err(TreeError::TypeMismatch),
    }
}

/// A document whose dialogue strings were replaced, in visiting order, by `l`.
pub open spec fn merged(doc: Seq<(Seq<char>, Tree)>, l: Seq<Seq<char>>) -> Seq<(Seq<char>, Tree)> {
    set_value(doc, "ast"@, fill(lookup(doc, "ast"@)->Some_0, AST, l, 0).0)
}

pub open spec fn same_tag(a: Tree, b: Tree) -> bool {
    &&& (a is Int ==> b == a)
    &&& (a is Dec ==> b == a)
    &&& (a is Str <==> b is Str)
    &&& (a is List <==> b is List)
    &&& (a is Dict <==> b is Dict)
}

proof fn lemma_kids_with_kids(t: Tree, lvl: usize, ks: Seq<Tree>)
    requires
        lvl < LEAF,
        ks.len() == kids(t, lvl).len(),
        forall|i: int| 0 <= i < ks.len() && kids(t, lvl)[i] is Int ==> #[trigger] ks[i] == kids(t, lvl)[i],
    ensures
        kids(with_kids(t, lvl, ks), lvl) == ks,
        same_tag(t, with_kids(t, lvl, ks)),
{
    if lvl == WRAPPER {
        if let Tree::Dict(d) = t {
            let e = with_kids(t, lvl, ks)->Dict_0;
            assert(kids(with_kids(t, lvl, ks), lvl) =~= ks);
        }
    } else if lvl == ITEM || lvl == TEXT_BLOCK {
        let k = if lvl == ITEM { "text"@ } else { "ja"@ };
        if let Tree::Dict(d) = t {
            if let Some(Tree::List(_)) = lookup(d, k) {
                lemma_set_value(d, k, Tree::List(ks));
            }
        }
    }
}

proof fn lemma_fill(t: Tree, lvl: usize, l: Seq<Seq<char>>, pos: int)
    requires
        lvl <= LEAF,
        0 <= pos,
        pos + leaves(t, lvl).len() <= l.len(),
    ensures
        fill(t, lvl, l, pos).1 == pos + leaves(t, lvl).len(),
        leaves(fill(t, lvl, l, pos).0, lvl) == l.subrange(pos, pos + leaves(t, lvl).len()),
        same_tag(t, fill(t, lvl, l, pos).0),
    decreases LEAF + 1 - lvl, 0int, 0int,
{
    if lvl >= LEAF {
        if let Tree::Str(_) = t {
            assert(seq![l[pos]] =~= l.subrange(pos, pos + 1));
        } else {
            assert(l.subrange(pos, pos) =~= seq![]);
        }
    } else {
        let ts = kids(t, lvl);
        lemma_fill_all(ts, (lvl + 1) as usize, l, pos);
        let (ks, p) = fill_all(ts, (lvl + 1) as usize, l, pos);
        lemma_kids_with_kids(t, lvl, ks);
    }
}

proof fn lemma_fill_all(ts: Seq<Tree>, lvl: usize, l: Seq<Seq<char>>, pos: int)
    requires
        lvl <= LEAF,
        0 <= pos,
        pos + leaves_all(ts, lvl).len() <= l.len(),
    ensures
        fill_all(ts, lvl, l, pos).1 == pos + leaves_all(ts, lvl).len(),
        leaves_all(fill_all(ts, lvl, l, pos).0, lvl) == l.subrange(
            pos,
            pos + leaves_all(ts, lvl).len(),
        ),
        fill_all(ts, lvl, l, pos).0.len() == ts.len(),
        forall|i: int|
            0 <= i < ts.len() ==> same_tag(#[trigger] ts[i], fill_all(ts, lvl, l, pos).0[i]),
    decreases LEAF + 1 - lvl, 1int, ts.len(),
{
    if ts.len() == 0 {
        assert(l.subrange(pos, pos) =~= seq![]);
    } else {
        let n = leaves_all(ts.drop_last(), lvl).len();
        lemma_fill_all(ts.drop_last(), lvl, l, pos);
        let (a, p) = fill_all(ts.drop_last(), lvl, l, pos);
        lemma_fill(ts.last(), lvl, l, p);
        let (x, q) = fill(ts.last(), lvl, l, p);
        assert(a.push(x).drop_last() =~= a);
        assert(l.subrange(pos, p) + l.subrange(p, q) =~= l.subrange(pos, q));
        assert forall|i: int| 0 <= i < ts.len() implies same_tag(
            #[trigger] ts[i],
            fill_all(ts, lvl, l, pos).0[i],
        ) by {
            if i < ts.len() - 1 {
                assert(ts[i] == ts.drop_last()[i]);
            }
        }
    }
}

/// Replacing the dialogue strings of a document by a list of as many strings,
/// then reading them again, gives back that list.
pub proof fn lemma_merge_then_extract(doc: Seq<(Seq<char>, Tree)>, l: Seq<Seq<char>>)
    requires
        extracted(doc) is Ok,
        l.len() == extracted(doc)->Ok_0.len(),
    ensures
        extracted(merged(doc, l)) == Ok::<Seq<Seq<char>>, TreeError>(l),
{
    let ast = lookup(doc, "ast"@)->Some_0;
    lemma_fill(ast, AST, l, 0);
    let new_ast = fill(ast, AST, l, 0).0;
    lemma_set_value(doc, "ast"@, new_ast);
    assert(l.subrange(0, l.len() as int) =~= l);
    let ws = ast->List_0;
    lemma_fill_all(ws, WRAPPER, l, 0);
    let ks = fill_all(ws, WRAPPER, l, 0).0;
    assert(new_ast == Tree::List(ks));
    assert forall|i: int| 0 <= i < ks.len() implies #[trigger] ks[i] is Dict by {
        assert(same_tag(ws[i], ks[i]));
    }
    assert(all_dicts(new_ast->List_0));
}

/// The characters of each string of a list.
pub open spec fn strings_view(v: Seq<String>) -> Seq<Seq<char>> {
    Seq::new(v.len(), |i: int| v[i]@)
}

proof fn lemma_hole(lvl: usize, l: Seq<Seq<char>>, pos: int)
    requires
        lvl < LEAF,
    ensures
        leaves(hole(), lvl) == Seq::<Seq<char>>::empty(),
        fill(hole(), lvl, l, pos) == (hole(), pos),
{
    assert(kids(hole(), lvl) =~= seq![]);
    assert(leaves_all(seq![], (lvl + 1) as usize) =~= seq![]);
}

/// Appends the dialogue strings below `v`, a node at level `lvl`, to `out`.
fn collect(v: &Value, lvl: usize, out: &mut Vec<String>)
    requires
        lvl <= LEAF,
    ensures
        strings_view(final(out)@) == strings_view(old(out)@) + leaves(v.view(), lvl),
    decreases LEAF + 1 - lvl, 0int,
{
    let ghost t = v.view();
    let ghost start = strings_view(out@);
    if lvl >= LEAF {
        if let Value::String(s) = v {
            out.push(s.clone());
        }
        assert(strings_view(out@) =~= start + leaves(t, lvl));
        return ;
    }
    if lvl == AST || lvl == ITEMS || lvl == ROW {
        match v {
            Value::Array(a) => {
                proof {
                    lemma_view_array(*v);
                }
                collect_all(a, lvl + 1, out);
            },
            _ => {
                assert(leaves_all(seq![], (lvl + 1) as usize) =~= seq![]);
                assert(strings_view(out@) =~= start + leaves(t, lvl));
            },
        }
    } else if lvl == WRAPPER {
        match v {
            Value::Dictionary(d) => {
                proof {
                    lemma_view_dictionary(*v);
                }
                let ghost ks = kids(t, lvl);
                let mut i: usize = 0;
                assert(leaves_all(ks.take(0), ITEMS) =~= seq![]);
                assert(strings_view(out@) =~= start + seq![]);
                while i < d.len()
                    invariant
                        i <= d.len(),
                        lvl == WRAPPER,
                        t == v.view(),
                        *v == Value::Dictionary(*d),
                        t == Tree::Dict(dict_view(d@)),
                        ks == kids(t, lvl),
                        ks.len() == d.len(),
                        strings_view(out@) == start + leaves_all(ks.take(i as int), ITEMS),
                    decreases d.len() - i,
                {
                    assert(ks.take(i + 1).drop_last() =~= ks.take(i as int));
                    if has_prefix(&d[i].key, "block_") {
                        collect(&d[i].value, ITEMS, out);
                    } else {
                        proof {
                            lemma_hole(ITEMS, seq![], 0);
                        }
                    }
                    assert(strings_view(out@) =~= start + leaves_all(ks.take(i + 1), ITEMS));
                    i += 1;
                }
                assert(ks.take(d.len() as int) =~= ks);
            },
            _ => {
                assert(leaves_all(seq![], (lvl + 1) as usize) =~= seq![]);
                assert(strings_view(out@) =~= start + leaves(t, lvl));
            },
        }
    } else {
        let key = if lvl == ITEM { "text" } else { "ja" };
        assert(key@ == if lvl == ITEM { "text"@ } else { "ja"@ });
        match v {
            Value::Dictionary(d) => {
                proof {
                    lemma_view_dictionary(*v);
                    lemma_first_index(dict_view(d@), key@);
                }
                let idx = find_key(d, key);
                if idx < d.len() {
                    match &d[idx].value {
                        Value::Array(a) => {
                            proof {
                                lemma_view_array(d[idx as int].value);
                            }
                            collect_all(a, lvl + 1, out);
                            return ;
                        },
                        _ => {},
                    }
                }
                assert(leaves_all(seq![], (lvl + 1) as usize) =~= seq![]);
                assert(strings_view(out@) =~= start + leaves(t, lvl));
            },
            _ => {
                assert(leaves_all(seq![], (lvl + 1) as usize) =~= seq![]);
                assert(strings_view(out@) =~= start + leaves(t, lvl));
            },
        }
    }
}

/// Appends the dialogue strings below each of `a`, nodes at level `lvl`, to `out`.
fn collect_all(a: &Vec<Value>, lvl: usize, out: &mut Vec<String>)
    requires
        lvl <= LEAF,
    ensures
        strings_view(final(out)@) == strings_view(old(out)@) + leaves_all(list_view(a@), lvl),
    decreases LEAF + 1 - lvl, 1int,
{
    let ghost start = strings_view(out@);
    let ghost ts = list_view(a@);
    let mut i: usize = 0;
    assert(leaves_all(ts.take(0), lvl) =~= seq![]);
    assert(strings_view(out@) =~= start + seq![]);
    while i < a.len()
        invariant
            i <= a.len(),
            lvl <= LEAF,
            ts == list_view(a@),
            strings_view(out@) == start + leaves_all(ts.take(i as int), lvl),
        decreases a.len() - i,
    {
        assert(ts.take(i + 1).drop_last() =~= ts.take(i as int));
        collect(&a[i], lvl, out);
        assert(strings_view(out@) =~= start + leaves_all(ts.take(i + 1), lvl));
        i += 1;
    }
    assert(ts.take(a.len() as int) =~= ts);
}

/// The dialogue strings of a document, in visiting order: `ast`, each block
/// wrapper, each entry whose key begins with `block_`, each item's `text`,
/// each text block's `ja`, each row, each string.
pub fn extract(doc: &Vec<Entry>) -> (r: Result<Vec<String>, TreeError>)
    ensures
        extracted(dict_view(doc@)) == match r {
            Ok(xs) => Ok(strings_view(xs@)),
            Err(e) => Err(e),
        },
{
    proof {
        lemma_first_index(dict_view(doc@), "ast"@);
    }
    let idx = find_key(doc, "ast");
    if idx >= doc.len() {
        return Err(TreeError::MissingField);
    }
    let ast = &doc[idx].value;
    match ast {
        Value::Array(ws) => {
            proof {
                lemma_view_array(*ast);
            }
            assert(lookup(dict_view(doc@), "ast"@) == Some(Tree::List(list_view(ws@))));
            let mut i: usize = 0;
            while i < ws.len()
                invariant
                    i <= ws.len(),
                    *ast == Value::Array(*ws),
                    lookup(dict_view(doc@), "ast"@) == Some(Tree::List(list_view(ws@))),
                    forall|j: int| 0 <= j < i ==> #[trigger] list_view(ws@)[j] is Dict,
                decreases ws.len() - i,
            {
                match &ws[i] {
                    Value::Dictionary(_) => {
                        proof {
                            lemma_view_dictionary(ws[i as int]);
                        }
                    },
                    _ => {
                        assert(!(list_view(ws@)[i as int] is Dict));
                        return Err(TreeError::TypeMismatch);
                    },
                }
                i += 1;
            }
            let mut out: Vec<String> = Vec::new();
            collect(ast, AST, &mut out);
            assert(strings_view(out@) =~= seq![] + leaves(ast.view(), AST));
            assert(lookup(dict_view(doc@), "ast"@) == Some(ast.view()));
            assert(all_dicts(list_view(ws@)));
            Ok(out)
        },
        _ => {
            assert(lookup(dict_view(doc@), "ast"@) == Some(ast.view()));
            assert(!(ast.view() is List));
            return Err(TreeError::TypeMismatch);
        },
    }
}

proof fn lemma_fill_all_len(ts: Seq<Tree>, lvl: usize, l: Seq<Seq<char>>, pos: int)
    ensures
        fill_all(ts, lvl, l, pos).0.len() == ts.len(),
    decreases ts.len(),
{
    if lvl <= LEAF && ts.len() > 0 {
        lemma_fill_all_len(ts.drop_last(), lvl, l, pos);
    }
}

proof fn lemma_fill_all_step(ts: Seq<Tree>, lvl: usize, l: Seq<Seq<char>>, pos: int)
    requires
        lvl <= LEAF,
        ts.len() > 0,
    ensures
        fill_all(ts, lvl, l, pos) == (
            fill_all(ts.drop_last(), lvl, l, pos).0.push(
                fill(ts.last(), lvl, l, fill_all(ts.drop_last(), lvl, l, pos).1).0,
            ),
            fill(ts.last(), lvl, l, fill_all(ts.drop_last(), lvl, l, pos).1).1,
        ),
{
}

/// `v`, a node at level `lvl`, with its dialogue strings replaced in visiting
/// order by `list[pos..]`; with the position after the last string used.
fn fill_value(v: Value, lvl: usize, list: &Vec<String>, pos: usize) -> (r: (Value, usize))
    requires
        lvl <= LEAF,
    ensures
        (r.0.view(), r.1 as int) == fill(v.view(), lvl, strings_view(list@), pos as int),
    decreases LEAF + 1 - lvl, 0int,
{
    let ghost t = v.view();
    let ghost l = strings_view(list@);
    if lvl >= LEAF {
        let is_text = match &v {
            Value::String(_) => true,
            _ => false,
        };
        if is_text && pos < list.len() {
            return (Value::String(list[pos].clone()), pos + 1);
        }
        return (v, pos);
    }
    if lvl == AST || lvl == ITEMS || lvl == ROW {
        match v {
            Value::Array(a) => {
                proof {
                    lemma_view_array(Value::Array(a));
                }
                let (b, p) = fill_values(a, lvl + 1, list, pos);
                let r = Value::Array(b);
                proof {
                    lemma_view_array(r);
                }
                (r, p)
            },
            other => (other, pos),
        }
    } else if lvl == WRAPPER {
        match v {
            Value::Dictionary(d) => {
                proof {
                    lemma_view_dictionary(Value::Dictionary(d));
                }
                let ghost orig = d@;
                let ghost dv = dict_view(orig);
                let ghost ks = kids(t, lvl);
                let mut d = d;
                let mut out: Vec<Entry> = Vec::new();
                let mut p: usize = pos;
                let mut k: usize = 0;
                assert(orig.skip(0) =~= orig);
                while d.len() > 0
                    invariant
                        k + d.len() == orig.len(),
                        orig.len() <= usize::MAX,
                        l == strings_view(list@),
                        d@ == orig.skip(k as int),
                        dv == dict_view(orig),
                        t == Tree::Dict(dv),
                        lvl == WRAPPER,
                        ks == kids(t, lvl),
                        ks.len() == orig.len(),
                        p as int == fill_all(ks.take(k as int), ITEMS, l, pos as int).1,
                        out.len() == k,
                        forall|i: int|
                            0 <= i < k ==> #[trigger] dict_view(out@)[i] == if block_key(dv[i].0) {
                                (dv[i].0, fill_all(ks.take(k as int), ITEMS, l, pos as int).0[i])
                            } else {
                                dv[i]
                            },
                    decreases d.len(),
                {
                    let ghost prev = fill_all(ks.take(k as int), ITEMS, l, pos as int);
                    proof {
                        lemma_fill_all_len(ks.take(k as int), ITEMS, l, pos as int);
                    }
                    assert(ks.take(k + 1).drop_last() =~= ks.take(k as int));
                    assert(d@[0] == orig[k as int]);
                    let e = d.remove(0);
                    assert(d@ =~= orig.skip(k + 1));
                    let ghost oldout = out@;
                    assert(dv[k as int] == (e.key@, e.value.view()));
                    let ghost mut newt: Tree = hole();
                    let block = has_prefix(&e.key, "block_");
                    if block {
                        let Entry { key, value } = e;
                        assert(ks.take(k + 1).last() == value.view());
                        let (nv, q) = fill_value(value, ITEMS, list, p);
                        proof {
                            lemma_fill_all_step(ks.take(k + 1), ITEMS, l, pos as int);
                            newt = nv.view();
                        }
                        out.push(Entry { key, value: nv });
                        p = q;
                    } else {
                        proof {
                            lemma_hole(ITEMS, l, p as int);
                            assert(ks.take(k + 1).last() == hole());
                            lemma_fill_all_step(ks.take(k + 1), ITEMS, l, pos as int);
                        }
                        out.push(e);
                    }
                    assert(fill_all(ks.take(k + 1), ITEMS, l, pos as int).0 == prev.0.push(newt));
                    assert(dict_view(out@)[k as int] == if block_key(dv[k as int].0) {
                        (dv[k as int].0, newt)
                    } else {
                        dv[k as int]
                    });
                    k += 1;
                    assert forall|i: int| 0 <= i < k implies #[trigger] dict_view(out@)[i]
                        == if block_key(dv[i].0) {
                        (dv[i].0, fill_all(ks.take(k as int), ITEMS, l, pos as int).0[i])
                    } else {
                        dv[i]
                    } by {
                        if i < k - 1 {
                            assert(dict_view(out@)[i] == dict_view(oldout)[i]);
                            assert(prev.0.push(newt)[i] == prev.0[i]);
                        } else {
                            assert(prev.0.push(newt)[i] == newt);
                        }
                    }
                }
                assert(ks.take(k as int) =~= ks);
                let r = Value::Dictionary(out);
                proof {
                    lemma_view_dictionary(r);
                    assert(dict_view(out@) =~= with_kids(t, lvl, fill_all(ks, ITEMS, l, pos as int).0)->Dict_0);
                }
                (r, p)
            },
            other => (other, pos),
        }
    } else {
        let key = if lvl == ITEM { "text" } else { "ja" };
        assert(key@ == if lvl == ITEM { "text"@ } else { "ja"@ });
        match v {
            Value::Dictionary(d) => {
                proof {
                    lemma_view_dictionary(Value::Dictionary(d));
                    lemma_first_index(dict_view(d@), key@);
                }
                let mut d = d;
                let idx = find_key(&d, key);
                let is_list = idx < d.len() && match &d[idx].value {
                    Value::Array(_) => true,
                    _ => false,
                };
                if !is_list {
                    proof {
                        if idx < d.len() {
                            assert(!(d[idx as int].value.view() is List));
                        }
                    }
                    return (Value::Dictionary(d), pos);
                }
                let ghost orig = d@;
                let e = d.remove(idx);
                let Entry { key: name, value } = e;
                match value {
                    Value::Array(a) => {
                        proof {
                            lemma_view_array(Value::Array(a));
                        }
                        let (b, p) = fill_values(a, lvl + 1, list, pos);
                        let nv = Value::Array(b);
                        proof {
                            lemma_view_array(nv);
                        }
                        d.insert(idx, Entry { key: name, value: nv });
                        let r = Value::Dictionary(d);
                        proof {
                            lemma_view_dictionary(r);
                            assert(dict_view(d@) =~= dict_view(orig).update(
                                idx as int,
                                (name@, nv.view()),
                            ));
                        }
                        (r, p)
                    },
                    _ => vstd::pervasive::unreached(),
                }
            },
            other => (other, pos),
        }
    }
}

/// Each of `a`, nodes at level `lvl`, with its dialogue strings replaced in
/// visiting order by `list[pos..]`; with the position after the last string used.
fn fill_values(a: Vec<Value>, lvl: usize, list: &Vec<String>, pos: usize) -> (r: (Vec<Value>, usize))
    requires
        lvl <= LEAF,
    ensures
        (list_view(r.0@), r.1 as int) == fill_all(list_view(a@), lvl, strings_view(list@), pos as int),
    decreases LEAF + 1 - lvl, 1int,
{
    let ghost orig = a@;
    assert(orig.len() == a.len());
    let ghost ts = list_view(orig);
    let ghost l = strings_view(list@);
    let mut a = a;
    let mut out: Vec<Value> = Vec::new();
    let mut p: usize = pos;
    let mut k: usize = 0;
    assert(orig.skip(0) =~= orig);
    assert(ts.take(0) =~= seq![]);
    assert(list_view(out@) =~= seq![]);
    while a.len() > 0
        invariant
            lvl <= LEAF,
            k + a.len() == orig.len(),
            orig.len() <= usize::MAX,
            l == strings_view(list@),
            a@ == orig.skip(k as int),
            ts == list_view(orig),
            (list_view(out@), p as int) == fill_all(ts.take(k as int), lvl, l, pos as int),
        decreases a.len(),
    {
        assert(ts.take(k + 1).drop_last() =~= ts.take(k as int));
        assert(a@[0] == orig[k as int]);
        let x = a.remove(0);
        assert(a@ =~= orig.skip(k + 1));
        let ghost oldout = out@;
        let ghost prevf = fill_all(ts.take(k as int), lvl, l, pos as int);
        assert(ts.take(k + 1).last() == x.view());
        let (y, q) = fill_value(x, lvl, list, p);
        proof {
            lemma_fill_all_step(ts.take(k + 1), lvl, l, pos as int);
        }
        assert(fill_all(ts.take(k + 1), lvl, l, pos as int) == (prevf.0.push(y.view()), q as int));
        out.push(y);
        p = q;
        k += 1;
        assert(list_view(out@) =~= list_view(oldout).push(y.view()));
    }
    assert(ts.take(k as int) =~= ts);
    (out, p)
}

/// Replaces the dialogue strings of a document, in the order in which
/// `extract` reads them, by the strings of `list`, which must be as many.
pub fn merge(doc: &mut Vec<Entry>, list: &Vec<String>) -> (r: Result<(), TreeError>)
    ensures
        match extracted(dict_view(old(doc)@)) {
            Err(e) => r == Err::<(), TreeError>(e) && final(doc)@ == old(doc)@,
            Ok(xs) => if list.len() < xs.len() {
                r == Err::<(), TreeError>(TreeError::ExhaustedInput) && final(doc)@ == old(doc)@
            } else if list.len() > xs.len() {
                r == Err::<(), TreeError>(TreeError::UnusedInput) && final(doc)@ == old(doc)@
            } else {
                r is Ok && dict_view(final(doc)@) == merged(
                    dict_view(old(doc)@),
                    strings_view(list@),
                )
            },
        },
{
    let found = extract(doc);
    let count = match found {
        Err(e) => {
            return Err(e);
        },
        Ok(xs) => xs.len(),
    };
    if list.len() < count {
        return Err(TreeError::ExhaustedInput);
    }
    if list.len() > count {
        return Err(TreeError::UnusedInput);
    }
    proof {
        lemma_first_index(dict_view(doc@), "ast"@);
    }
    let idx = find_key(doc, "ast");
    let ghost orig = doc@;
    let e = doc.remove(idx);
    let Entry { key, value } = e;
    let (nv, _) = fill_value(value, AST, list, 0);
    doc.insert(idx, Entry { key, value: nv });
    proof {
        assert(dict_view(doc@) =~= dict_view(orig).update(idx as int, (key@, nv.view())));
    }
    Ok(())
}

pub open spec fn link_key(k: Seq<char>) -> bool {
    k == "linknext"@ || k == "line"@
}

/// The entries of `d` whose key is `linknext` or `line`, in order.
pub open spec fn keep_links(d: Seq<(Seq<char>, Tree)>) -> Seq<(Seq<char>, Tree)>
    decreases d.len(),
{
    if d.len() == 0 {
        d
    } else if link_key(d.last().0) {
        keep_links(d.drop_last()).push(d.last())
    } else {
        keep_links(d.drop_last())
    }
}

/// The dictionary items of a block, each cut down to its link entries.
pub open spec fn prune_items(s: Seq<Tree>) -> Seq<Tree>
    decreases s.len(),
{
    if s.len() == 0 {
        s
    } else {
        match s.last() {
            Tree::Dict(d) => prune_items(s.drop_last()).push(Tree::Dict(keep_links(d))),
            _ => prune_items(s.drop_last()),
        }
    }
}

/// A block wrapper with the items of each block pruned.
pub open spec fn prune_wrapper(w: Tree) -> Tree {
    match w {
        Tree::Dict(d) => Tree::Dict(
            Seq::new(
                d.len(),
                |i: int|
                    if block_key(d[i].0) && d[i].1 is List {
                        (d[i].0, Tree::List(prune_items(d[i].1->List_0)))
                    } else {
                        d[i]
                    },
            ),
        ),
        _ => w,
    }
}

/// A document stripped down to its control flow.
pub open spec fn pruned(doc: Seq<(Seq<char>, Tree)>) -> Seq<(Seq<char>, Tree)> {
    match lookup(doc, "ast"@) {
        Some(Tree::List(ws)) => set_value(
            doc,
            "ast"@,
            Tree::List(ws.map_values(|w: Tree| prune_wrapper(w))),
        ),
        _ => doc,
    }
}

pub open spec fn items_links_only(items: Seq<Tree>) -> bool {
    forall|m: int|
        0 <= m < items.len() ==> (#[trigger] items[m] is Dict && forall|n: int|
            0 <= n < items[m]->Dict_0.len() ==> link_key(#[trigger] items[m]->Dict_0[n].0))
}

pub open spec fn wrapper_links_only(w: Tree) -> bool {
    w is Dict ==> forall|j: int|
        0 <= j < w->Dict_0.len() && block_key(#[trigger] w->Dict_0[j].0) && w->Dict_0[j].1 is List
            ==> items_links_only(w->Dict_0[j].1->List_0)
}

/// Every item of every block is a dictionary holding only link entries.
pub open spec fn links_only(doc: Seq<(Seq<char>, Tree)>) -> bool {
    match lookup(doc, "ast"@) {
        Some(Tree::List(ws)) => forall|i: int| 0 <= i < ws.len() ==> wrapper_links_only(#[trigger] ws[i]),
        _ => true,
    }
}

proof fn lemma_keep_links(d: Seq<(Seq<char>, Tree)>)
    ensures
        keep_links(keep_links(d)) == keep_links(d),
        forall|n: int| 0 <= n < keep_links(d).len() ==> link_key(#[trigger] keep_links(d)[n].0),
    decreases d.len(),
{
    if d.len() > 0 {
        let r = keep_links(d.drop_last());
        lemma_keep_links(d.drop_last());
        if link_key(d.last().0) {
            assert(r.push(d.last()).drop_last() =~= r);
        }
    }
}

proof fn lemma_prune_items(s: Seq<Tree>)
    ensures
        prune_items(prune_items(s)) == prune_items(s),
        items_links_only(prune_items(s)),
    decreases s.len(),
{
    if s.len() > 0 {
        let r = prune_items(s.drop_last());
        lemma_prune_items(s.drop_last());
        if let Tree::Dict(d) = s.last() {
            let x = Tree::Dict(keep_links(d));
            lemma_keep_links(d);
            assert(r.push(x).drop_last() =~= r);
            assert(prune_items(prune_items(s)) =~= prune_items(s));
            assert forall|m: int| 0 <= m < prune_items(s).len() implies (
            #[trigger] prune_items(s)[m] is Dict && forall|n: int|
                0 <= n < prune_items(s)[m]->Dict_0.len() ==> link_key(
                    #[trigger] prune_items(s)[m]->Dict_0[n].0,
                )) by {
                if m < r.len() {
                    assert(prune_items(s)[m] == r[m]);
                }
            }
        }
    }
}

proof fn lemma_prune_wrapper(w: Tree)
    ensures
        prune_wrapper(prune_wrapper(w)) == prune_wrapper(w),
        wrapper_links_only(prune_wrapper(w)),
{
    if let Tree::Dict(d) = w {
        let e = prune_wrapper(w)->Dict_0;
        assert forall|i: int| 0 <= i < d.len() && block_key(d[i].0) && d[i].1 is List implies
            prune_items(prune_items(#[trigger] d[i].1->List_0)) == prune_items(d[i].1->List_0)
            && items_links_only(prune_items(d[i].1->List_0)) by {
            lemma_prune_items(d[i].1->List_0);
        }
        assert(prune_wrapper(prune_wrapper(w))->Dict_0 =~= e);
    }
}

/// Pruning a pruned document changes nothing.
pub proof fn lemma_prune_idempotent(doc: Seq<(Seq<char>, Tree)>)
    ensures
        pruned(pruned(doc)) == pruned(doc),
{
    if let Some(Tree::List(ws)) = lookup(doc, "ast"@) {
        let ws1 = ws.map_values(|w: Tree| prune_wrapper(w));
        lemma_set_value(doc, "ast"@, Tree::List(ws1));
        let ws2 = ws1.map_values(|w: Tree| prune_wrapper(w));
        assert forall|i: int| 0 <= i < ws.len() implies #[trigger] ws2[i] == ws1[i] by {
            lemma_prune_wrapper(ws[i]);
        }
        assert(ws2 =~= ws1);
    }
}

/// After pruning, every item of every block is a dictionary whose keys are
/// among `linknext` and `line`.
pub proof fn lemma_prune_keeps_links(doc: Seq<(Seq<char>, Tree)>)
    ensures
        links_only(pruned(doc)),
{
    if let Some(Tree::List(ws)) = lookup(doc, "ast"@) {
        let ws1 = ws.map_values(|w: Tree| prune_wrapper(w));
        lemma_set_value(doc, "ast"@, Tree::List(ws1));
        assert forall|i: int| 0 <= i < ws1.len() implies wrapper_links_only(#[trigger] ws1[i]) by {
            lemma_prune_wrapper(ws[i]);
        }
    }
}

fn keep_link_entries(d: Vec<Entry>) -> (r: Vec<Entry>)
    ensures
        dict_view(r@) == keep_links(dict_view(d@)),
{
    let ghost orig = d@;
    assert(orig.len() == d.len());
    let mut d = d;
    let mut out: Vec<Entry> = Vec::new();
    let mut k: usize = 0;
    assert(orig.skip(0) =~= orig);
    assert(dict_view(orig).take(0) =~= seq![]);
    assert(dict_view(out@) =~= seq![]);
    while d.len() > 0
        invariant
            k + d.len() == orig.len(),
            orig.len() <= usize::MAX,
            d@ == orig.skip(k as int),
            dict_view(out@) == keep_links(dict_view(orig).take(k as int)),
        decreases d.len(),
    {
        assert(dict_view(orig).take(k + 1).drop_last() =~= dict_view(orig).take(k as int));
        assert(d@[0] == orig[k as int]);
        let e = d.remove(0);
        assert(d@ =~= orig.skip(k + 1));
        let ghost oldout = out@;
        if same_text(&e.key, "linknext") || same_text(&e.key, "line") {
            out.push(e);
            assert(dict_view(out@) =~= dict_view(oldout).push(dict_view(orig)[k as int]));
        }
        k += 1;
    }
    assert(dict_view(orig).take(k as int) =~= dict_view(orig));
    out
}

fn prune_item_list(items: Vec<Value>) -> (r: Vec<Value>)
    ensures
        list_view(r@) == prune_items(list_view(items@)),
{
    let ghost orig = items@;
    assert(orig.len() == items.len());
    let mut items = items;
    let mut out: Vec<Value> = Vec::new();
    let mut k: usize = 0;
    assert(orig.skip(0) =~= orig);
    assert(list_view(orig).take(0) =~= seq![]);
    assert(list_view(out@) =~= seq![]);
    while items.len() > 0
        invariant
            k + items.len() == orig.len(),
            orig.len() <= usize::MAX,
            items@ == orig.skip(k as int),
            list_view(out@) == prune_items(list_view(orig).take(k as int)),
        decreases items.len(),
    {
        assert(list_view(orig).take(k + 1).drop_last() =~= list_view(orig).take(k as int));
        assert(items@[0] == orig[k as int]);
        let x = items.remove(0);
        assert(items@ =~= orig.skip(k + 1));
        let ghost oldout = out@;
        match x {
            Value::Dictionary(d) => {
                proof {
                    lemma_view_dictionary(Value::Dictionary(d));
                }
                let kept = keep_link_entries(d);
                let y = Value::Dictionary(kept);
                proof {
                    lemma_view_dictionary(y);
                }
                out.push(y);
                assert(list_view(out@) =~= list_view(oldout).push(y.view()));
            },
            _ => {},
        }
        k += 1;
    }
    assert(list_view(orig).take(k as int) =~= list_view(orig));
    out
}

fn prune_block_wrapper(w: Value) -> (r: Value)
    ensures
        r.view() == prune_wrapper(w.view()),
{
    match w {
        Value::Dictionary(d) => {
            proof {
                lemma_view_dictionary(Value::Dictionary(d));
            }
            let ghost orig = d@;
            let ghost dv = dict_view(orig);
            assert(orig.len() == d.len());
            let mut d = d;
            let mut out: Vec<Entry> = Vec::new();
            let mut k: usize = 0;
            assert(orig.skip(0) =~= orig);
            while d.len() > 0
                invariant
                    k + d.len() == orig.len(),
                    orig.len() <= usize::MAX,
                    d@ == orig.skip(k as int),
                    dv == dict_view(orig),
                    out.len() == k,
                    forall|i: int|
                        0 <= i < k ==> #[trigger] dict_view(out@)[i] == if block_key(dv[i].0)
                            && dv[i].1 is List {
                            (dv[i].0, Tree::List(prune_items(dv[i].1->List_0)))
                        } else {
                            dv[i]
                        },
                decreases d.len(),
            {
                assert(d@[0] == orig[k as int]);
                let e = d.remove(0);
                assert(d@ =~= orig.skip(k + 1));
                let ghost oldout = out@;
                let block = has_prefix(&e.key, "block_");
                let Entry { key, value } = e;
                match value {
                    Value::Array(items) => {
                        proof {
                            lemma_view_array(Value::Array(items));
                        }
                        if block {
                            let y = Value::Array(prune_item_list(items));
                            proof {
                                lemma_view_array(y);
                            }
                            out.push(Entry { key, value: y });
                        } else {
                            out.push(Entry { key, value: Value::Array(items) });
                        }
                    },
                    other => {
                        out.push(Entry { key, value: other });
                    },
                }
                k += 1;
                assert forall|i: int| 0 <= i < k implies #[trigger] dict_view(out@)[i]
                    == if block_key(dv[i].0) && dv[i].1 is List {
                    (dv[i].0, Tree::List(prune_items(dv[i].1->List_0)))
                } else {
                    dv[i]
                } by {
                    if i < k - 1 {
                        assert(dict_view(out@)[i] == dict_view(oldout)[i]);
                    }
                }
            }
            let r = Value::Dictionary(out);
            proof {
                lemma_view_dictionary(r);
                assert(dict_view(out@) =~= prune_wrapper(Tree::Dict(dv))->Dict_0);
            }
            r
        },
        other => other,
    }
}

/// Strips a document down to its control flow: every dictionary item of a
/// block keeps only its `linknext` and `line` entries, and every other item
/// is removed. Nothing outside the items changes.
pub fn prune(doc: &mut Vec<Entry>)
    ensures
        dict_view(final(doc)@) == pruned(dict_view(old(doc)@)),
        links_only(dict_view(final(doc)@)),
{
    proof {
        lemma_prune_keeps_links(dict_view(doc@));
    }
    proof {
        lemma_first_index(dict_view(doc@), "ast"@);
    }
    let idx = find_key(doc, "ast");
    if idx >= doc.len() {
        return ;
    }
    let is_list = match &doc[idx].value {
        Value::Array(_) => true,
        _ => false,
    };
    if !is_list {
        assert(!(doc[idx as int].value.view() is List));
        return ;
    }
    let ghost orig = doc@;
    let e = doc.remove(idx);
    let Entry { key, value } = e;
    match value {
        Value::Array(ws) => {
            proof {
                lemma_view_array(Value::Array(ws));
            }
            let ghost wo = ws@;
            let ghost tv = list_view(wo);
            assert(wo.len() == ws.len());
            let mut ws = ws;
            let mut out: Vec<Value> = Vec::new();
            let mut k: usize = 0;
            assert(wo.skip(0) =~= wo);
            while ws.len() > 0
                invariant
                    k + ws.len() == wo.len(),
                    wo.len() <= usize::MAX,
                    ws@ == wo.skip(k as int),
                    tv == list_view(wo),
                    out.len() == k,
                    forall|i: int| 0 <= i < k ==> #[trigger] list_view(out@)[i] == prune_wrapper(tv[i]),
                decreases ws.len(),
            {
                assert(ws@[0] == wo[k as int]);
                let w = ws.remove(0);
                assert(ws@ =~= wo.skip(k + 1));
                let ghost oldout = out@;
                out.push(prune_block_wrapper(w));
                k += 1;
                assert forall|i: int| 0 <= i < k implies #[trigger] list_view(out@)[i] == prune_wrapper(
                    tv[i],
                ) by {
                    if i < k - 1 {
                        assert(list_view(out@)[i] == list_view(oldout)[i]);
                    }
                }
            }
            let nv = Value::Array(out);
            proof {
                lemma_view_array(nv);
                assert(list_view(out@) =~= tv.map_values(|w: Tree| prune_wrapper(w)));
            }
            doc.insert(idx, Entry { key, value: nv });
            proof {
                assert(dict_view(doc@) =~= dict_view(orig).update(idx as int, (key@, nv.view())));
            }
        },
        _ => vstd::pervasive::unreached(),
    }
}

} // verus!
