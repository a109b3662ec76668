//! Reads a document from its tokens.

use crate::ast::{
    Definition, Directive, Document, Field, FragmentDefinition, FragmentSpread, InlineFragment, Mutation,
    OperationDefinition, Query, Selection, SelectionSet, Subscription, Type, TypeCondition, VariableDefinition,
};
use crate::grammar::{lemma_value_first_tok, lemma_values_toks_front, lemma_pairs_toks_front, lemma_value_toks_prefix, 
    args_toks, default_toks, definition_toks, directive_toks, directives_toks, document_toks, fragment_toks,
    op_body_toks, operation_toks, pairs_toks, selection_set_toks, selection_toks, selections_toks, toks_of,
    type_toks, value_toks, value_wf, values_toks, var_def_toks, var_defs_seq_toks, var_defs_toks, Tok,
};
use crate::lexer::{tokenize, tokens_wf, ParseError, Token, TokenKind};
use crate::span::{Pos, Span, Spanned};
use crate::text::eq_str;
use crate::round_trip::{definition_wf, directives_wf, document_wf, op_parts_wf, pairs_wf, selection_set_wf, selection_wf, var_def_wf, var_defs_wf};
use crate::value::Value;
use vstd::prelude::*;

verus! {

/// Punctuator tokens hold one character, every token's positions are
/// one-based, and there are fewer tokens than the largest index.
pub open spec fn tokens_ok(ts: Seq<Token>) -> bool {
    &&& ts.len() < usize::MAX - 2
    &&& forall|k: int| 0 <= k < ts.len() && #[trigger] ts[k].kind == TokenKind::Punct ==> ts[k].text@.len() == 1
    &&& forall|k: int| 0 <= k < ts.len() ==> (#[trigger] ts[k]).start.wf() && ts[k].end.wf()
}

proof fn lemma_sub(s: Seq<Tok>, a: int, b: int, c: int)
    requires
        0 <= a <= b <= c <= s.len(),
    ensures
        s.subrange(a, c) == s.subrange(a, b) + s.subrange(b, c),
{
    assert(s.subrange(a, c) =~= s.subrange(a, b) + s.subrange(b, c));
}

proof fn lemma_one(s: Seq<Tok>, a: int)
    requires
        0 <= a < s.len(),
    ensures
        s.subrange(a, a + 1) == seq![s[a]],
{
    assert(s.subrange(a, a + 1) =~= seq![s[a]]);
}

/// Pairs that a well-formed object or argument list can hold: distinct
/// names, well-formed values.
pub open spec fn pairs_ok(ps: Seq<(Spanned<String>, Spanned<Value>)>) -> bool {
    crate::value::keys_unique(ps) && forall|k: int| #![trigger ps[k]] 0 <= k < ps.len() ==> value_wf(ps[k].1.node)
}

/// The parts of a selection set that the parser asks beyond well-formedness:
/// every set in braces holds a selection, every argument list has distinct
/// names.
pub open spec fn set_ok_rest(ss: SelectionSet) -> bool
    decreases ss,
{
    ss.items@.len() > 0 && forall|k: int| #![trigger ss.items@[k]] 0 <= k < ss.items@.len() ==> sel_ok_rest(ss.items@[k].node)
}

pub open spec fn sel_ok_rest(sel: Selection) -> bool
    decreases sel,
{
    match sel {
        Selection::Field(f) => pairs_ok(f.node.arguments@) && dirs_ok(f.node.directives@) && (
        f.node.selection_set.node.items@.len() == 0 || set_ok_rest(f.node.selection_set.node)),
        Selection::FragmentSpread(sp) => dirs_ok(sp.node.directives@),
        Selection::InlineFragment(fr) => dirs_ok(fr.node.directives@) && set_ok_rest(fr.node.selection_set.node),
    }
}

/// A selection set that can be read back by the parser.
pub open spec fn set_ok(ss: SelectionSet) -> bool {
    selection_set_wf(ss) && set_ok_rest(ss)
}

/// A selection that can be read back by the parser.
pub open spec fn sel_ok(sel: Selection) -> bool {
    selection_wf(sel) && sel_ok_rest(sel)
}

/// A selection the parser can read at `i`: its tokens stand there and a
/// selection's follower comes after them.
pub open spec fn sel_pre(s: Seq<Tok>, i: int, w: Selection) -> bool {
    &&& sel_ok(w)
    &&& starts_with(s, i, selection_toks(w))
    &&& crate::round_trip::sel_follow(s.subrange(i + selection_toks(w).len(), s.len() as int))
}

/// Any selection the parser can read at `i` ends where `w` does.
proof fn lemma_sel_end(s: Seq<Tok>, i: int, j: int, w: Selection)
    requires
        sel_pre(s, i, w),
        j == i + selection_toks(w).len(),
    ensures
        forall|w2: Selection| #[trigger] sel_pre(s, i, w2) ==> j == i + selection_toks(w2).len(),
{
    assert forall|w2: Selection| #[trigger] sel_pre(s, i, w2) implies j == i + selection_toks(w2).len() by {
        let r1 = s.subrange(j, s.len() as int);
        let r2 = s.subrange(i + selection_toks(w2).len(), s.len() as int);
        assert(s.subrange(i, s.len() as int) =~= selection_toks(w) + r1);
        assert(s.subrange(i, s.len() as int) =~= selection_toks(w2) + r2);
        crate::round_trip::lemma_selection_prefix(w, w2, r1, r2);
    }
}

spec fn tok_of_at(ts: Seq<Token>, k: int) -> Tok {
    crate::grammar::tok_of(ts[k])
}

/// The parts of an operation after its keyword: name, variable
/// definitions, directives, selection set.
pub type OpParts = (Option<Spanned<String>>, Seq<Spanned<VariableDefinition>>, Seq<Spanned<Directive>>, SelectionSet);

/// An operation the parser can read at `i`, keyword included.
pub open spec fn op_pre(s: Seq<Tok>, i: int, w: OpParts) -> bool {
    &&& 0 <= i < s.len()
    &&& s[i] is Name
    &&& var_defs_wf(w.1)
    &&& dirs_ok(w.2)
    &&& set_ok(w.3)
    &&& starts_with(s, i, op_body_toks(s[i]->Name_0, w.0, w.1, w.2, w.3))
}

proof fn lemma_dirs_ok_wf(d: Seq<Spanned<Directive>>)
    requires
        dirs_ok(d),
    ensures
        directives_wf(d),
{
    assert forall|k: int| #![trigger d[k]] 0 <= k < d.len() implies pairs_wf(d[k].node.arguments@) by {
        assert(pairs_ok(d[k].node.arguments@));
    }
}

/// A fragment definition the parser can read at `i`.
pub open spec fn frag_pre(s: Seq<Tok>, i: int, f: FragmentDefinition) -> bool {
    dirs_ok(f.directives@) && set_ok(f.selection_set.node) && starts_with(s, i, fragment_toks(f))
}

/// A definition the parser can read back.
pub open spec fn def_ok(d: Definition) -> bool {
    match d {
        Definition::Operation(o) => match o.node {
            OperationDefinition::SelectionSet(x) => set_ok(x.node),
            OperationDefinition::Query(q) => var_defs_wf(q.node.variable_definitions@) && dirs_ok(q.node.directives@)
                && set_ok(q.node.selection_set.node),
            OperationDefinition::Mutation(q) => var_defs_wf(q.node.variable_definitions@) && dirs_ok(q.node.directives@)
                && set_ok(q.node.selection_set.node),
            OperationDefinition::Subscription(q) => var_defs_wf(q.node.variable_definitions@) && dirs_ok(
                q.node.directives@,
            ) && set_ok(q.node.selection_set.node),
        },
        Definition::Fragment(f) => dirs_ok(f.node.directives@) && set_ok(f.node.selection_set.node),
    }
}

/// A document the parser can read back: one or more definitions it can read back.
pub open spec fn doc_ok(defs: Seq<Spanned<Definition>>) -> bool {
    defs.len() > 0 && forall|k: int| #![trigger defs[k]] 0 <= k < defs.len() ==> def_ok(defs[k].node)
}

proof fn lemma_def_ok_wf(d: Definition)
    requires
        def_ok(d),
    ensures
        definition_wf(d),
{
    match d {
        Definition::Operation(o) => match o.node {
            OperationDefinition::Query(q) => lemma_dirs_ok_wf(q.node.directives@),
            OperationDefinition::Mutation(q) => lemma_dirs_ok_wf(q.node.directives@),
            OperationDefinition::Subscription(q) => lemma_dirs_ok_wf(q.node.directives@),
            _ => {},
        },
        Definition::Fragment(f) => lemma_dirs_ok_wf(f.node.directives@),
    }
}

/// Any well-formed definition written from `i` ends where the definition
/// read from `i` to `j` ends.
proof fn lemma_def_end(s: Seq<Tok>, i: int, j: int, d: Definition)
    requires
        definition_wf(d),
        0 <= i <= j <= s.len(),
        s.subrange(i, j) == definition_toks(d),
    ensures
        forall|d2: Definition| def_ok(d2) && #[trigger] starts_with(s, i, definition_toks(d2)) ==> j == i
            + definition_toks(d2).len(),
{
    assert forall|d2: Definition| def_ok(d2) && #[trigger] starts_with(s, i, definition_toks(d2)) implies j == i
        + definition_toks(d2).len() by {
        lemma_def_ok_wf(d2);
        let r1 = s.subrange(j, s.len() as int);
        let r2 = s.subrange(i + definition_toks(d2).len(), s.len() as int);
        assert(s.subrange(i, s.len() as int) =~= definition_toks(d) + r1);
        assert(s.subrange(i, s.len() as int) =~= definition_toks(d2) + r2);
        crate::round_trip::lemma_definition_prefix(d, d2, r1, r2);
    }
}

/// Directives whose argument lists a well-formed field could hold.
pub open spec fn dirs_ok(d: Seq<Spanned<Directive>>) -> bool {
    forall|k: int| #![trigger d[k]] 0 <= k < d.len() ==> pairs_ok(d[k].node.arguments@)
}

/// The span from the start of token `i` to the end of token `j - 1`.
pub open spec fn span_at(ts: Seq<Token>, i: int, j: int) -> Span {
    Span { start: ts[i].start, end: ts[j - 1].end }
}

/// The token at `k`, if any, is not the punctuator `c`.
pub open spec fn next_not(s: Seq<Tok>, k: int, c: char) -> bool {
    k < 0 || k >= s.len() || s[k] != Tok::Punct(c)
}

/// The tokens `t` stand in `s` from index `i` on.
pub open spec fn starts_with(s: Seq<Tok>, i: int, t: Seq<Tok>) -> bool {
    0 <= i && i + t.len() <= s.len() && s.subrange(i, i + t.len()) == t
}

proof fn lemma_starts_split(s: Seq<Tok>, i: int, a: Seq<Tok>, b: Seq<Tok>)
    requires
        starts_with(s, i, a + b),
    ensures
        starts_with(s, i, a),
        starts_with(s, i + a.len(), b),
{
    let full = s.subrange(i, i + (a + b).len());
    assert(full == a + b);
    assert(s.subrange(i, i + a.len()) =~= full.subrange(0, a.len() as int));
    assert(full.subrange(0, a.len() as int) =~= a);
    assert(s.subrange(i + a.len(), i + a.len() + b.len()) =~= full.subrange(a.len() as int, full.len() as int));
    assert(full.subrange(a.len() as int, full.len() as int) =~= b);
}

/// A value read from `i` to `j` ends where any well-formed value written from `i` ends.
proof fn lemma_value_end(s: Seq<Tok>, i: int, j: int, v: Value, w: Value)
    requires
        value_wf(v),
        value_wf(w),
        0 <= i <= j <= s.len(),
        s.subrange(i, j) == value_toks(v),
        starts_with(s, i, value_toks(w)),
    ensures
        j == i + value_toks(w).len(),
{
    let lw = value_toks(w).len() as int;
    let r1 = s.subrange(j, s.len() as int);
    let r2 = s.subrange(i + lw, s.len() as int);
    assert(s.subrange(i, s.len() as int) =~= value_toks(v) + r1);
    assert(s.subrange(i, s.len() as int) =~= value_toks(w) + r2);
    lemma_value_toks_prefix(v, w, r1, r2);
}

/// Where an error at token `i` is reported: at that token, or after the last one.
fn pos_at(toks: &Vec<Token>, i: usize) -> (r: Pos)
    requires
        tokens_ok(toks@),
    ensures
        r.wf(),
{
    if i < toks.len() {
        toks[i].start
    } else if toks.len() > 0 {
        toks[toks.len() - 1].end
    } else {
        Pos { line: 1, column: 1 }
    }
}

fn span_of(toks: &Vec<Token>, i: usize, j: usize) -> (r: Span)
    requires
        i < j <= toks@.len(),
    ensures
        r.start == toks@[i as int].start,
        r.end == toks@[j - 1].end,
{
    Span { start: toks[i].start, end: toks[j - 1].end }
}

fn fail<T>(toks: &Vec<Token>, i: usize, message: &str) -> (r: Result<T, ParseError>)
    requires
        tokens_ok(toks@),
    ensures
        r matches Err(e) && e.pos.wf(),
{
    Err(ParseError { message: String::from_str(message), pos: pos_at(toks, i) })
}

/// Whether token `i` is the punctuator `c`.
fn is_punct(toks: &Vec<Token>, i: usize, c: char) -> (r: bool)
    requires
        tokens_ok(toks@),
    ensures
        r == (i < toks@.len() && toks_of(toks@)[i as int] == Tok::Punct(c)),
{
    if i < toks.len() && toks[i].kind == TokenKind::Punct {
        assert(toks@[i as int].kind == TokenKind::Punct);
        toks[i].text.as_str().get_char(0) == c
    } else {
        false
    }
}

/// Whether token `i` is the name `word`.
fn is_word(toks: &Vec<Token>, i: usize, word: &str) -> (r: bool)
    ensures
        r == (i < toks@.len() && toks_of(toks@)[i as int] == Tok::Name(word@)),
{
    i < toks.len() && toks[i].kind == TokenKind::Name && eq_str(&toks[i].text, word)
}

/// Reads the name at token `i`.
fn expect_name(toks: &Vec<Token>, i: usize) -> (r: Result<Spanned<String>, ParseError>)
    requires
        tokens_ok(toks@),
    ensures
        r matches Err(e) ==> e.pos.wf(),
        r matches Ok(n) ==> i < toks@.len() && toks_of(toks@)[i as int] == Tok::Name(n.node@) && n.span == span_at(
            toks@,
            i as int,
            i + 1,
        ),
        (i < toks@.len() && toks_of(toks@)[i as int] is Name) ==> r is Ok,
{
    if i < toks.len() && toks[i].kind == TokenKind::Name {
        Ok(Spanned { span: Span { start: toks[i].start, end: toks[i].end }, node: toks[i].text.clone() })
    } else {
        fail(toks, i, "expected a name")
    }
}

/// Reads the value that starts at token `i`; gives it and the index after it.
pub fn parse_value(toks: &Vec<Token>, i: usize) -> (r: Result<(Spanned<Value>, usize), ParseError>)
    requires
        tokens_ok(toks@),
    ensures
        r matches Ok((n, j)) ==> n.span == span_at(toks@, i as int, j as int),
        r matches Err(e) ==> e.pos.wf(),
        r matches Ok((v, j)) ==> i < j <= toks@.len() && toks_of(toks@).subrange(i as int, j as int) == value_toks(
            v.node,
        ) && value_wf(v.node),
        (exists|w: Value| value_wf(w) && #[trigger] starts_with(toks_of(toks@), i as int, value_toks(w))) ==> r is Ok,
    decreases toks@.len() - i,
{
    let ghost s = toks_of(toks@);
    let ghost has = exists|w: Value| value_wf(w) && #[trigger] starts_with(s, i as int, value_toks(w));
    let ghost w: Value = if has {
        choose|w: Value| value_wf(w) && #[trigger] starts_with(s, i as int, value_toks(w))
    } else {
        Value::Null
    };
    proof {
        if has {
            lemma_value_first_tok(w);
        }
    }
    if i >= toks.len() {
        return fail(toks, i, "expected a value");
    }
    proof {
        if has {
            assert(s[i as int] == s.subrange(i as int, i + value_toks(w).len())[0]);
            assert(s[i as int] == value_toks(w)[0]);
        }
        lemma_one(s, i as int);
        reveal_strlit("null");
        reveal_strlit("true");
        reveal_strlit("false");
    }
    let t = &toks[i];
    let node = match t.kind {
        TokenKind::Int => Value::Int(t.int_value),
        TokenKind::Float => Value::Float(t.text.clone()),
        TokenKind::Str => Value::String(t.text.clone()),
        TokenKind::Name => {
            if eq_str(&t.text, "null") {
                Value::Null
            } else if eq_str(&t.text, "true") {
                Value::Boolean(true)
            } else if eq_str(&t.text, "false") {
                Value::Boolean(false)
            } else {
                Value::Enum(t.text.clone())
            }
        },
        TokenKind::Spread => {
            return fail(toks, i, "expected a value");
        },
        TokenKind::Punct => {
            if is_punct(toks, i, '$') {
                proof {
                    if has {
                        assert(s[i + 1] == s.subrange(i as int, i + value_toks(w).len())[1]);
                    }
                }
                let name = match expect_name(toks, i + 1) {
                    Ok(n) => n,
                    Err(e) => return Err(e),
                };
                proof {
                    lemma_one(s, i as int + 1);
                    lemma_sub(s, i as int, i as int + 1, i as int + 2);
                    assert(s.subrange(i as int, i as int + 2) =~= value_toks(Value::Variable(name.node)));
                }
                return Ok((Spanned { span: span_of(toks, i, i + 2), node: Value::Variable(name.node) }, i + 2));
            } else if is_punct(toks, i, '[') {
                let mut items: Vec<Spanned<Value>> = Vec::new();
                let mut j: usize = i + 1;
                let ghost xs: Seq<Spanned<Value>> = if has { w->List_0@ } else { Seq::empty() };
                proof {
                    assert(s.subrange(i as int + 1, j as int) =~= values_toks(items@));
                    if has {
                        assert(value_toks(w) =~= seq![Tok::Punct('[')] + (values_toks(xs) + seq![Tok::Punct(']')]));
                        lemma_starts_split(s, i as int, seq![Tok::Punct('[')], values_toks(xs) + seq![Tok::Punct(']')]);
                        assert(xs.subrange(0, xs.len() as int) =~= xs);
                    }
                }
                while !is_punct(toks, j, ']')
                    invariant
                        tokens_ok(toks@),
                        s == toks_of(toks@),
                        i < j <= toks@.len(),
                        s.subrange(i as int + 1, j as int) == values_toks(items@),
                        forall|k: int| #![trigger items@[k]] 0 <= k < items@.len() ==> value_wf(items@[k].node),
                        has == exists|w: Value| value_wf(w) && #[trigger] starts_with(s, i as int, value_toks(w)),
                        has ==> w is List && xs == w->List_0@ && value_wf(w),
                        has ==> items@.len() <= xs.len() && starts_with(
                            s,
                            j as int,
                            values_toks(xs.subrange(items@.len() as int, xs.len() as int)) + seq![Tok::Punct(']')],
                        ),
                    decreases toks@.len() - j,
                {
                    let ghost m = items@.len() as int;
                    proof {
                        if has {
                            let rest = xs.subrange(m, xs.len() as int);
                            if m == xs.len() {
                                assert(rest =~= Seq::<Spanned<Value>>::empty());
                                assert(s.subrange(j as int, j + 1) =~= seq![Tok::Punct(']')]);
                                assert(s[j as int] == s.subrange(j as int, j + 1)[0]);
                                assert(false);
                            }
                            lemma_values_toks_front(rest);
                            assert(rest.drop_first() =~= xs.subrange(m + 1, xs.len() as int));
                            assert(rest[0] == xs[m]);
                            let vt = value_toks(xs[m].node);
                            let tail = values_toks(xs.subrange(m + 1, xs.len() as int)) + seq![Tok::Punct(']')];
                            assert(values_toks(rest) + seq![Tok::Punct(']')] =~= vt + tail);
                            lemma_starts_split(s, j as int, vt, tail);
                            assert(value_wf(xs[m].node));
                            lemma_value_first_tok(xs[m].node);
                        }
                    }
                    if j >= toks.len() {
                        return fail(toks, j, "unterminated list");
                    }
                    let (v, j2) = match parse_value(toks, j) {
                        Ok(p) => p,
                        Err(e) => return Err(e),
                    };
                    proof {
                        if has {
                            lemma_value_end(s, j as int, j2 as int, v.node, xs[m].node);
                        }
                    }
                    let ghost old_items = items@;
                    items.push(v);
                    proof {
                        lemma_sub(s, i as int + 1, j as int, j2 as int);
                        assert(items@.subrange(0, items@.len() - 1) =~= old_items);
                    }
                    j = j2;
                }
                proof {
                    lemma_one(s, j as int);
                    lemma_one(s, i as int);
                    lemma_sub(s, i as int, i as int + 1, j as int);
                    lemma_sub(s, i as int, j as int, j as int + 1);
                    assert(s.subrange(i as int, j as int + 1) =~= value_toks(Value::List(items)));
                }
                return Ok((Spanned { span: span_of(toks, i, j + 1), node: Value::List(items) }, j + 1));
            } else if is_punct(toks, i, '{') {
                proof {
                    if has {
                        let x = w->Object_0@;
                        assert(value_toks(w) =~= seq![Tok::Punct('{')] + (pairs_toks(x) + seq![Tok::Punct('}')]));
                        lemma_starts_split(s, i as int, seq![Tok::Punct('{')], pairs_toks(x) + seq![Tok::Punct('}')]);
                        assert(pairs_ok(x));
                    }
                }
                let (fields, j) = match parse_pairs(toks, i + 1, '}') {
                    Ok(p) => p,
                    Err(e) => return Err(e),
                };
                proof {
                    lemma_one(s, j as int);
                    lemma_sub(s, i as int, i as int + 1, j as int);
                    lemma_sub(s, i as int, j as int, j as int + 1);
                    assert(s.subrange(i as int, j as int + 1) =~= value_toks(Value::Object(fields)));
                }
                return Ok((Spanned { span: span_of(toks, i, j + 1), node: Value::Object(fields) }, j + 1));
            } else {
                return fail(toks, i, "expected a value");
            }
        },
    };
    proof {
        assert(s.subrange(i as int, i as int + 1) =~= value_toks(node));
    }
    Ok((Spanned { span: span_of(toks, i, i + 1), node }, i + 1))
}

/// Reads `name: value` pairs from token `i` up to the punctuator `close`;
/// gives them and the index of `close`.
fn parse_pairs(toks: &Vec<Token>, i: usize, close: char) -> (r: Result<(Vec<(Spanned<String>, Spanned<Value>)>, usize), ParseError>)
    requires
        tokens_ok(toks@),
        i <= toks@.len(),
    ensures
        r matches Err(e) ==> e.pos.wf(),
        r matches Ok((ps, j)) ==> i <= j < toks@.len() && toks_of(toks@)[j as int] == Tok::Punct(close)
            && toks_of(toks@).subrange(i as int, j as int) == pairs_toks(ps@) && crate::value::keys_unique(ps@) && forall|k: int|
            #![trigger ps@[k]]
            0 <= k < ps@.len() ==> value_wf(ps@[k].1.node),
        ((close == ')' || close == '}') && exists|ps: Seq<(Spanned<String>, Spanned<Value>)>|
            pairs_ok(ps) && #[trigger] starts_with(toks_of(toks@), i as int, pairs_toks(ps) + seq![Tok::Punct(close)]))
            ==> r is Ok,
    decreases toks@.len() - i, 0nat,
{
    let ghost s = toks_of(toks@);
    let ghost has = (close == ')' || close == '}') && exists|ps: Seq<(Spanned<String>, Spanned<Value>)>|
        pairs_ok(ps) && #[trigger] starts_with(s, i as int, pairs_toks(ps) + seq![Tok::Punct(close)]);
    let ghost ps: Seq<(Spanned<String>, Spanned<Value>)> = if has {
        choose|ps: Seq<(Spanned<String>, Spanned<Value>)>| pairs_ok(ps) && #[trigger] starts_with(s, i as int, pairs_toks(ps) + seq![Tok::Punct(close)])
    } else {
        Seq::empty()
    };
    let mut pairs: Vec<(Spanned<String>, Spanned<Value>)> = Vec::new();
    let mut j: usize = i;
    proof {
        assert(s.subrange(i as int, j as int) =~= pairs_toks(pairs@));
        assert(ps.subrange(0, ps.len() as int) =~= ps);
    }
    while !is_punct(toks, j, close)
        invariant
            tokens_ok(toks@),
            s == toks_of(toks@),
            i <= j <= toks@.len(),
            s.subrange(i as int, j as int) == pairs_toks(pairs@),
            forall|k: int| #![trigger pairs@[k]] 0 <= k < pairs@.len() ==> value_wf(pairs@[k].1.node),
            crate::value::keys_unique(pairs@),
            has == ((close == ')' || close == '}') && exists|ps: Seq<(Spanned<String>, Spanned<Value>)>|
                pairs_ok(ps) && #[trigger] starts_with(s, i as int, pairs_toks(ps) + seq![Tok::Punct(close)])),
            has ==> pairs_ok(ps) && (close == ')' || close == '}'),
            has ==> pairs@.len() <= ps.len() && starts_with(
                s,
                j as int,
                pairs_toks(ps.subrange(pairs@.len() as int, ps.len() as int)) + seq![Tok::Punct(close)],
            ),
            has ==> forall|k: int| 0 <= k < pairs@.len() ==> (#[trigger] pairs@[k]).0.node@ == ps[k].0.node@,
        decreases toks@.len() - j,
    {
        let ghost m = pairs@.len() as int;
        proof {
            if has {
                let rest = ps.subrange(m, ps.len() as int);
                if m == ps.len() {
                    assert(rest =~= Seq::<(Spanned<String>, Spanned<Value>)>::empty());
                    assert(s.subrange(j as int, j + 1) =~= seq![Tok::Punct(close)]);
                    assert(s[j as int] == s.subrange(j as int, j + 1)[0]);
                    assert(false);
                }
                lemma_pairs_toks_front(rest);
                assert(rest.drop_first() =~= ps.subrange(m + 1, ps.len() as int));
                assert(rest[0] == ps[m]);
                let head = seq![Tok::Name(ps[m].0.node@), Tok::Punct(':')];
                let vt = value_toks(ps[m].1.node);
                let tail = pairs_toks(ps.subrange(m + 1, ps.len() as int)) + seq![Tok::Punct(close)];
                assert(pairs_toks(rest) + seq![Tok::Punct(close)] =~= head + (vt + tail));
                lemma_starts_split(s, j as int, head, vt + tail);
                lemma_starts_split(s, j + 2, vt, tail);
                assert(s[j as int] == s.subrange(j as int, j + 2)[0]);
                assert(s[j + 1] == s.subrange(j as int, j + 2)[1]);
                assert(value_wf(ps[m].1.node));
            }
        }
        let name = match expect_name(toks, j) {
            Ok(n) => n,
            Err(e) => return Err(e),
        };
        match crate::context::find_key(&pairs, &name.node) {
            Some(_) => {
                proof {
                    if has {
                        crate::value::lemma_key_pos_valid(pairs@, name.node@, 0);
                        let k = crate::value::key_pos(pairs@, name.node@);
                        assert(pairs@[k].0.node@ == ps[k].0.node@);
                        assert(ps[m].0.node@ == name.node@);
                        assert(false);
                    }
                }
                return fail(toks, j, "a name is given twice");
            },
            None => {
                proof { crate::value::lemma_key_pos_absent(pairs@, name.node@, 0); }
            },
        }
        if !is_punct(toks, j + 1, ':') {
            return fail(toks, j + 1, "expected `:`");
        }
        let (v, j2) = match parse_value(toks, j + 2) {
            Ok(p) => p,
            Err(e) => return Err(e),
        };
        proof {
            if has {
                lemma_value_end(s, j + 2, j2 as int, v.node, ps[m].1.node);
            }
        }
        let ghost old_pairs = pairs@;
        pairs.push((name, v));
        proof {
            lemma_one(s, j as int);
            lemma_one(s, j as int + 1);
            lemma_sub(s, j as int, j as int + 1, j as int + 2);
            lemma_sub(s, j as int, j as int + 2, j2 as int);
            lemma_sub(s, i as int, j as int, j2 as int);
            assert(pairs@.subrange(0, pairs@.len() - 1) =~= old_pairs);
        }
        j = j2;
    }
    Ok((pairs, j))
}

/// Reads an argument list at token `i`, if one starts there.
#[verifier::spinoff_prover]
fn parse_arguments(toks: &Vec<Token>, i: usize) -> (r: Result<(Vec<(Spanned<String>, Spanned<Value>)>, usize), ParseError>)
    requires
        tokens_ok(toks@),
        i <= toks@.len(),
    ensures
        r matches Err(e) ==> e.pos.wf(),
        r matches Ok((ps, j)) ==> i <= j <= toks@.len() && toks_of(toks@).subrange(i as int, j as int) == args_toks(ps@)
            && pairs_wf(ps@) && crate::value::keys_unique(ps@) && next_not(toks_of(toks@), j as int, '('),
        (exists|a: Seq<(Spanned<String>, Spanned<Value>)>|
            pairs_ok(a) && #[trigger] starts_with(toks_of(toks@), i as int, args_toks(a)) && next_not(
                toks_of(toks@),
                i + args_toks(a).len(),
                '(',
            )) ==> r is Ok,
{
    let ghost s = toks_of(toks@);
    let ghost has = exists|a: Seq<(Spanned<String>, Spanned<Value>)>|
        pairs_ok(a) && #[trigger] starts_with(s, i as int, args_toks(a)) && next_not(s, i + args_toks(a).len(), '(');
    let ghost w: Seq<(Spanned<String>, Spanned<Value>)> = if has {
        choose|a: Seq<(Spanned<String>, Spanned<Value>)>|
            pairs_ok(a) && #[trigger] starts_with(s, i as int, args_toks(a)) && next_not(s, i + args_toks(a).len(), '(')
    } else {
        Seq::empty()
    };
    if !is_punct(toks, i, '(') {
        let ps: Vec<(Spanned<String>, Spanned<Value>)> = Vec::new();
        proof { assert(s.subrange(i as int, i as int) =~= args_toks(ps@)); }
        return Ok((ps, i));
    }
    proof {
        if has {
            if w.len() == 0 {
                assert(false);
            }
            assert(args_toks(w) =~= seq![Tok::Punct('(')] + (pairs_toks(w) + seq![Tok::Punct(')')]));
            lemma_starts_split(s, i as int, seq![Tok::Punct('(')], pairs_toks(w) + seq![Tok::Punct(')')]);
        }
    }
    let (ps, j) = match parse_pairs(toks, i + 1, ')') {
        Ok(p) => p,
        Err(e) => return Err(e),
    };
    proof {
        if has {
            let lw = pairs_toks(w).len() as int;
            let r1 = s.subrange(j + 1, s.len() as int);
            let r2 = s.subrange(i + 1 + lw + 1, s.len() as int);
            assert(s.subrange(i + 1, s.len() as int) =~= pairs_toks(ps@) + seq![Tok::Punct(')')] + r1);
            assert(s.subrange(i + 1, s.len() as int) =~= pairs_toks(w) + seq![Tok::Punct(')')] + r2);
            crate::round_trip::lemma_pairs_prefix(ps@, w, r1, r2);
            lemma_pairs_toks_front(w);
            if ps@.len() == 0 {
                assert(pairs_toks(ps@) == Seq::<Tok>::empty());
                assert(s[i + 1] == s.subrange(i + 1, s.len() as int)[0]);
                assert(false);
            }
        }
    }
    if ps.len() == 0 {
        return fail(toks, j, "expected an argument");
    }
    if is_punct(toks, j + 1, '(') {
        return fail(toks, j + 1, "unexpected `(`");
    }
    proof {
        lemma_one(s, i as int);
        lemma_one(s, j as int);
        lemma_sub(s, i as int, i as int + 1, j as int);
        lemma_sub(s, i as int, j as int, j as int + 1);
        assert(s.subrange(i as int, j as int + 1) =~= args_toks(ps@));
    }
    Ok((ps, j + 1))
}

/// Reads the directives that start at token `i`, if any.
#[verifier::spinoff_prover]
#[verifier::rlimit(60)]
fn parse_directives(toks: &Vec<Token>, i: usize) -> (r: Result<(Vec<Spanned<Directive>>, usize), ParseError>)
    requires
        tokens_ok(toks@),
        i <= toks@.len(),
    ensures
        r matches Err(e) ==> e.pos.wf(),
        r matches Ok((ds, j)) ==> i <= j <= toks@.len() && toks_of(toks@).subrange(i as int, j as int)
            == directives_toks(ds@) && directives_wf(ds@) && next_not(toks_of(toks@), j as int, '@') && (next_not(
            toks_of(toks@),
            i as int,
            '(',
        ) ==> next_not(toks_of(toks@), j as int, '(')),
        (exists|d: Seq<Spanned<Directive>>|
            dirs_ok(d) && #[trigger] starts_with(toks_of(toks@), i as int, directives_toks(d)) && next_not(
                toks_of(toks@),
                i + directives_toks(d).len(),
                '@',
            ) && next_not(toks_of(toks@), i + directives_toks(d).len(), '(')) ==> r is Ok,
{
    let ghost s = toks_of(toks@);
    let ghost has = exists|d: Seq<Spanned<Directive>>|
        dirs_ok(d) && #[trigger] starts_with(s, i as int, directives_toks(d)) && next_not(s, i + directives_toks(d).len(), '@')
            && next_not(s, i + directives_toks(d).len(), '(');
    let ghost w: Seq<Spanned<Directive>> = if has {
        choose|d: Seq<Spanned<Directive>>|
            dirs_ok(d) && #[trigger] starts_with(s, i as int, directives_toks(d)) && next_not(s, i + directives_toks(d).len(), '@')
                && next_not(s, i + directives_toks(d).len(), '(')
    } else {
        Seq::empty()
    };
    let ghost e = i + directives_toks(w).len();
    let mut ds: Vec<Spanned<Directive>> = Vec::new();
    let mut j: usize = i;
    proof {
        assert(s.subrange(i as int, j as int) =~= directives_toks(ds@));
        assert(w.subrange(0, w.len() as int) =~= w);
    }
    while is_punct(toks, j, '@')
        invariant
            tokens_ok(toks@),
            s == toks_of(toks@),
            i <= j <= toks@.len(),
            s.subrange(i as int, j as int) == directives_toks(ds@),
            directives_wf(ds@),
            next_not(s, i as int, '(') ==> next_not(s, j as int, '('),
            has == exists|d: Seq<Spanned<Directive>>|
                dirs_ok(d) && #[trigger] starts_with(s, i as int, directives_toks(d)) && next_not(s, i + directives_toks(d).len(), '@')
                    && next_not(s, i + directives_toks(d).len(), '('),
            has ==> dirs_ok(w) && next_not(s, e, '@') && next_not(s, e, '('),
            has ==> ds@.len() <= w.len() && starts_with(s, j as int, directives_toks(w.subrange(ds@.len() as int, w.len() as int)))
                && j + directives_toks(w.subrange(ds@.len() as int, w.len() as int)).len() == e,
        decreases toks@.len() - j,
    {
        let ghost m = ds@.len() as int;
        proof {
            if has {
                let rest = w.subrange(m, w.len() as int);
                if m == w.len() {
                    assert(rest =~= Seq::<Spanned<Directive>>::empty());
                    assert(false);
                }
                crate::round_trip::lemma_directives_front(rest);
                assert(rest.drop_first() =~= w.subrange(m + 1, w.len() as int));
                assert(rest[0] == w[m]);
                let dm = w[m].node;
                let head = seq![Tok::Punct('@'), Tok::Name(dm.name.node@)];
                let at = args_toks(dm.arguments@);
                let tail = directives_toks(w.subrange(m + 1, w.len() as int));
                assert(directives_toks(rest) =~= head + (at + tail));
                lemma_starts_split(s, j as int, head, at + tail);
                lemma_starts_split(s, j + 2, at, tail);
                assert(s[j + 1] == s.subrange(j as int, j + 2)[1]);
                assert(pairs_ok(dm.arguments@));
                let ae = j + 2 + at.len();
                if tail.len() > 0 {
                    crate::round_trip::lemma_directives_front(w.subrange(m + 1, w.len() as int));
                    assert(s[ae] == s.subrange(ae, ae + tail.len())[0]);
                } else {
                    assert(ae == e);
                }
                assert(next_not(s, ae, '('));
            }
        }
        let name = match expect_name(toks, j + 1) {
            Ok(n) => n,
            Err(e) => return Err(e),
        };
        let (arguments, k) = match parse_arguments(toks, j + 2) {
            Ok(p) => p,
            Err(e) => return Err(e),
        };
        proof {
            if has {
                let at = args_toks(w[m].node.arguments@);
                let r1 = s.subrange(k as int, s.len() as int);
                let r2 = s.subrange(j + 2 + at.len(), s.len() as int);
                assert(s.subrange(j + 2, s.len() as int) =~= args_toks(arguments@) + r1);
                assert(s.subrange(j + 2, s.len() as int) =~= at + r2);
                if r1.len() > 0 {
                    assert(r1[0] == s[k as int]);
                }
                if r2.len() > 0 {
                    assert(r2[0] == s[j + 2 + at.len()]);
                }
                crate::round_trip::lemma_args_prefix(arguments@, w[m].node.arguments@, r1, r2);
                assert(w.subrange(m, w.len() as int).drop_first() =~= w.subrange(m + 1, w.len() as int));
            }
        }
        let d = Directive { name, arguments };
        let ghost old_ds = ds@;
        let ghost gd = d;
        ds.push(Spanned { span: span_of(toks, j, k), node: d });
        proof {
            lemma_one(s, j as int);
            lemma_one(s, j as int + 1);
            lemma_sub(s, j as int, j as int + 1, j as int + 2);
            lemma_sub(s, j as int, j as int + 2, k as int);
            lemma_sub(s, i as int, j as int, k as int);
            assert(s.subrange(j as int, k as int) =~= directive_toks(gd));
            assert(ds@.drop_last() =~= old_ds);
        }
        j = k;
    }
    Ok((ds, j))
}

/// Reads the type reference that starts at token `i`.
#[verifier::spinoff_prover]
#[verifier::rlimit(60)]
fn parse_type(toks: &Vec<Token>, i: usize) -> (r: Result<(Spanned<Type>, usize), ParseError>)
    requires
        tokens_ok(toks@),
        i <= toks@.len(),
    ensures
        r matches Ok((n, j)) ==> n.span == span_at(toks@, i as int, j as int),
        r matches Err(e) ==> e.pos.wf(),
        r matches Ok((t, j)) ==> i < j <= toks@.len() && toks_of(toks@).subrange(i as int, j as int) == type_toks(t.node)
            && crate::ast::type_wf(t.node) && next_not(toks_of(toks@), j as int, '!'),
        (exists|t: Type|
            crate::ast::type_wf(t) && #[trigger] starts_with(toks_of(toks@), i as int, type_toks(t)) && next_not(
                toks_of(toks@),
                i + type_toks(t).len(),
                '!',
            )) ==> r is Ok,
    decreases toks@.len() - i,
{
    let ghost s = toks_of(toks@);
    let ghost has = exists|t: Type|
        crate::ast::type_wf(t) && #[trigger] starts_with(s, i as int, type_toks(t)) && next_not(s, i + type_toks(t).len(), '!');
    let ghost w: Type = if has {
        choose|t: Type| crate::ast::type_wf(t) && #[trigger] starts_with(s, i as int, type_toks(t)) && next_not(s, i + type_toks(t).len(), '!')
    } else {
        arbitrary()
    };
    let ghost bw: Type = match w {
        Type::NonNull(x) => x.node,
        _ => w,
    };
    let ghost bang: Seq<Tok> = if w is NonNull { seq![Tok::Punct('!')] } else { Seq::empty() };
    proof {
        if has {
            assert(type_toks(w) =~= type_toks(bw) + bang);
            lemma_starts_split(s, i as int, type_toks(bw), bang);
        }
    }
    let (base, k) = if is_punct(toks, i, '[') {
        proof {
            if has {
                assert(s[i as int] == s.subrange(i as int, i + type_toks(bw).len())[0]);
                if bw is Named {
                    assert(false);
                }
                let x = bw->List_0.node;
                assert(type_toks(bw) =~= seq![Tok::Punct('[')] + (type_toks(x) + seq![Tok::Punct(']')]));
                lemma_starts_split(s, i as int, seq![Tok::Punct('[')], type_toks(x) + seq![Tok::Punct(']')]);
                lemma_starts_split(s, i + 1, type_toks(x), seq![Tok::Punct(']')]);
                assert(s[i + 1 + type_toks(x).len()] == s.subrange(i + 1 + type_toks(x).len(), i + 2 + type_toks(x).len())[0]);
                assert(crate::ast::type_wf(bw));
                assert(crate::ast::type_wf(x));
            }
        }
        let (inner, j) = match parse_type(toks, i + 1) {
            Ok(p) => p,
            Err(e) => return Err(e),
        };
        proof {
            if has {
                let x = bw->List_0.node;
                let lx = type_toks(x).len() as int;
                let r1 = s.subrange(j as int, s.len() as int);
                let r2 = s.subrange(i + 1 + lx, s.len() as int);
                assert(s.subrange(i + 1, s.len() as int) =~= type_toks(inner.node) + r1);
                assert(s.subrange(i + 1, s.len() as int) =~= type_toks(x) + r2);
                assert(r2[0] == s[i + 1 + lx]);
                if r1.len() > 0 {
                    assert(r1[0] == s[j as int]);
                }
                crate::round_trip::lemma_type_prefix(inner.node, x, r1, r2);
            }
        }
        if !is_punct(toks, j, ']') {
            return fail(toks, j, "expected `]`");
        }
        let t = Type::List(Box::new(inner));
        assert(crate::ast::type_wf(t));
        proof {
            lemma_one(s, i as int);
            lemma_one(s, j as int);
            lemma_sub(s, i as int, i as int + 1, j as int);
            lemma_sub(s, i as int, j as int, j as int + 1);
            assert(s.subrange(i as int, j as int + 1) =~= type_toks(t));
        }
        (Spanned { span: span_of(toks, i, j + 1), node: t }, j + 1)
    } else {
        proof {
            if has {
                assert(s[i as int] == s.subrange(i as int, i + type_toks(bw).len())[0]);
            }
        }
        let name = match expect_name(toks, i) {
            Ok(n) => n,
            Err(e) => return Err(e),
        };
        let sp = name.span;
        let t = Type::Named(name);
        proof {
            lemma_one(s, i as int);
            assert(s.subrange(i as int, i as int + 1) =~= type_toks(t));
        }
        (Spanned { span: sp, node: t }, i + 1)
    };
    assert(!(base.node is NonNull) && crate::ast::type_wf(base.node));
    proof {
        if has {
            assert(k == i + type_toks(bw).len());
            if w is NonNull {
                lemma_starts_split(s, i as int, type_toks(bw), bang);
                assert(s[k as int] == s.subrange(k as int, k + 1)[0]);
            }
        }
    }
    if is_punct(toks, k, '!') {
        if is_punct(toks, k + 1, '!') {
            return fail(toks, k + 1, "a type may not be non-null twice");
        }
        let t = Type::NonNull(Box::new(base));
        proof {
            lemma_one(s, k as int);
            lemma_sub(s, i as int, k as int, k as int + 1);
            assert(s.subrange(i as int, k as int + 1) =~= type_toks(t));
        }
        Ok((Spanned { span: span_of(toks, i, k + 1), node: t }, k + 1))
    } else {
        Ok((base, k))
    }
}

/// Reads a variable-definition list at token `i`, if one starts there.
#[verifier::spinoff_prover]
#[verifier::rlimit(80)]
fn parse_variable_definitions(toks: &Vec<Token>, i: usize) -> (r: Result<(Vec<Spanned<VariableDefinition>>, usize), ParseError>)
    requires
        tokens_ok(toks@),
        i <= toks@.len(),
    ensures
        r matches Err(e) ==> e.pos.wf(),
        r matches Ok((vs, j)) ==> i <= j <= toks@.len() && toks_of(toks@).subrange(i as int, j as int)
            == var_defs_toks(vs@) && var_defs_wf(vs@) && next_not(toks_of(toks@), j as int, '('),
        (exists|w: Seq<Spanned<VariableDefinition>>|
            var_defs_wf(w) && #[trigger] starts_with(toks_of(toks@), i as int, var_defs_toks(w)) && next_not(
                toks_of(toks@),
                i + var_defs_toks(w).len(),
                '(',
            )) ==> r is Ok,
{
    let ghost s = toks_of(toks@);
    let ghost has = exists|w: Seq<Spanned<VariableDefinition>>|
        var_defs_wf(w) && #[trigger] starts_with(s, i as int, var_defs_toks(w)) && next_not(s, i + var_defs_toks(w).len(), '(');
    let ghost w: Seq<Spanned<VariableDefinition>> = if has {
        choose|w: Seq<Spanned<VariableDefinition>>|
            var_defs_wf(w) && #[trigger] starts_with(s, i as int, var_defs_toks(w)) && next_not(s, i + var_defs_toks(w).len(), '(')
    } else {
        Seq::empty()
    };
    let mut vs: Vec<Spanned<VariableDefinition>> = Vec::new();
    if !is_punct(toks, i, '(') {
        proof { assert(s.subrange(i as int, i as int) =~= var_defs_toks(vs@)); }
        return Ok((vs, i));
    }
    proof {
        if has {
            if w.len() == 0 {
                assert(false);
            }
            assert(var_defs_toks(w) =~= seq![Tok::Punct('(')] + (var_defs_seq_toks(w) + seq![Tok::Punct(')')]));
            lemma_starts_split(s, i as int, seq![Tok::Punct('(')], var_defs_seq_toks(w) + seq![Tok::Punct(')')]);
            assert(w.subrange(0, w.len() as int) =~= w);
        }
    }
    let mut j: usize = i + 1;
    proof { assert(s.subrange(i as int + 1, j as int) =~= var_defs_seq_toks(vs@)); }
    while !is_punct(toks, j, ')')
        invariant
            tokens_ok(toks@),
            s == toks_of(toks@),
            i < j <= toks@.len(),
            s.subrange(i as int + 1, j as int) == var_defs_seq_toks(vs@),
            var_defs_wf(vs@),
            has == exists|w: Seq<Spanned<VariableDefinition>>|
                var_defs_wf(w) && #[trigger] starts_with(s, i as int, var_defs_toks(w)) && next_not(s, i + var_defs_toks(w).len(), '('),
            has ==> var_defs_wf(w) && w.len() > 0,
            has ==> vs@.len() <= w.len() && starts_with(
                s,
                j as int,
                var_defs_seq_toks(w.subrange(vs@.len() as int, w.len() as int)) + seq![Tok::Punct(')')],
            ),
        decreases toks@.len() - j,
    {
        let ghost m = vs@.len() as int;
        proof {
            if has {
                let rest = w.subrange(m, w.len() as int);
                if m == w.len() {
                    assert(rest =~= Seq::<Spanned<VariableDefinition>>::empty());
                    assert(s[j as int] == s.subrange(j as int, j + 1)[0]);
                    assert(false);
                }
                crate::round_trip::lemma_var_defs_front(rest);
                assert(rest.drop_first() =~= w.subrange(m + 1, w.len() as int));
                assert(rest[0] == w[m]);
                let vd = w[m].node;
                let head = seq![Tok::Punct('$'), Tok::Name(vd.name.node@), Tok::Punct(':')];
                let tt = type_toks(vd.var_type.node);
                let dt = default_toks(vd.default_value);
                let tail = var_defs_seq_toks(w.subrange(m + 1, w.len() as int)) + seq![Tok::Punct(')')];
                assert(var_defs_seq_toks(rest) + seq![Tok::Punct(')')] =~= head + (tt + (dt + tail)));
                lemma_starts_split(s, j as int, head, tt + (dt + tail));
                lemma_starts_split(s, j + 3, tt, dt + tail);
                lemma_starts_split(s, j + 3 + tt.len(), dt, tail);
                assert(s[j as int] == s.subrange(j as int, j + 3)[0]);
                assert(s[j + 1] == s.subrange(j as int, j + 3)[1]);
                assert(s[j + 2] == s.subrange(j as int, j + 3)[2]);
                assert(crate::round_trip::var_def_wf(vd));
                let te = j + 3 + tt.len();
                let de = te + dt.len();
                if w.subrange(m + 1, w.len() as int).len() > 0 {
                    crate::round_trip::lemma_var_defs_front(w.subrange(m + 1, w.len() as int));
                }
                assert(s[de] == s.subrange(de, de + tail.len())[0]);
                if vd.default_value is Some {
                    assert(s[te] == s.subrange(te, te + dt.len())[0]);
                    assert(dt =~= seq![Tok::Punct('=')] + value_toks(vd.default_value->0.node));
                    lemma_starts_split(s, te, seq![Tok::Punct('=')], value_toks(vd.default_value->0.node));
                } else {
                    assert(te == de);
                }
                assert(next_not(s, te, '!'));
            }
        }
        if !is_punct(toks, j, '$') {
            return fail(toks, j, "expected `$`");
        }
        let name = match expect_name(toks, j + 1) {
            Ok(n) => n,
            Err(e) => return Err(e),
        };
        if !is_punct(toks, j + 2, ':') {
            return fail(toks, j + 2, "expected `:`");
        }
        let (var_type, k) = match parse_type(toks, j + 3) {
            Ok(p) => p,
            Err(e) => return Err(e),
        };
        proof {
            if has {
                let t = w[m].node.var_type.node;
                let lt = type_toks(t).len() as int;
                let r1 = s.subrange(k as int, s.len() as int);
                let r2 = s.subrange(j + 3 + lt, s.len() as int);
                assert(s.subrange(j + 3, s.len() as int) =~= type_toks(var_type.node) + r1);
                assert(s.subrange(j + 3, s.len() as int) =~= type_toks(t) + r2);
                if r1.len() > 0 {
                    assert(r1[0] == s[k as int]);
                }
                if r2.len() > 0 {
                    assert(r2[0] == s[j + 3 + lt]);
                }
                crate::round_trip::lemma_type_prefix(var_type.node, t, r1, r2);
            }
        }
        let (default_value, k2) = if is_punct(toks, k, '=') {
            let (v, k2) = match parse_value(toks, k + 1) {
                Ok(p) => p,
                Err(e) => return Err(e),
            };
            proof {
                lemma_one(s, k as int);
                lemma_sub(s, k as int, k as int + 1, k2 as int);
                if has {
                    lemma_value_end(s, k + 1, k2 as int, v.node, w[m].node.default_value->0.node);
                }
            }
            (Some(v), k2)
        } else {
            (None, k)
        };
        proof {
            assert(s.subrange(k as int, k2 as int) =~= default_toks(default_value));
        }
        let d = VariableDefinition { name, var_type, default_value };
        let ghost gd = d;
        let ghost old_vs = vs@;
        vs.push(Spanned { span: span_of(toks, j, k2), node: d });
        proof {
            lemma_one(s, j as int);
            lemma_one(s, j as int + 1);
            lemma_one(s, j as int + 2);
            lemma_sub(s, j as int, j as int + 1, j as int + 2);
            lemma_sub(s, j as int, j as int + 2, j as int + 3);
            lemma_sub(s, j as int, j as int + 3, k as int);
            lemma_sub(s, j as int, k as int, k2 as int);
            lemma_sub(s, i as int + 1, j as int, k2 as int);
            assert(s.subrange(j as int, k2 as int) =~= var_def_toks(gd));
            assert(vs@.drop_last() =~= old_vs);
        }
        j = k2;
    }
    if vs.len() == 0 {
        proof {
            if has {
                assert(w.subrange(0, w.len() as int) =~= w);
                crate::round_trip::lemma_var_defs_front(w);
                assert(s[j as int] == s.subrange(j as int, j + 1)[0]);
                assert(false);
            }
        }
        return fail(toks, j, "expected a variable definition");
    }
    proof {
        lemma_one(s, i as int);
        lemma_one(s, j as int);
        lemma_sub(s, i as int, i as int + 1, j as int);
        lemma_sub(s, i as int, j as int, j as int + 1);
        assert(s.subrange(i as int, j as int + 1) =~= var_defs_toks(vs@));
        if has {
            let lw = var_defs_seq_toks(w).len() as int;
            let r1 = s.subrange(j + 1, s.len() as int);
            let r2 = s.subrange(i + 1 + lw + 1, s.len() as int);
            assert(s.subrange(i + 1, s.len() as int) =~= var_defs_seq_toks(vs@) + seq![Tok::Punct(')')] + r1);
            assert(s.subrange(i + 1, s.len() as int) =~= var_defs_seq_toks(w) + seq![Tok::Punct(')')] + r2);
            crate::round_trip::lemma_var_defs_seq_prefix(vs@, w, r1, r2);
        }
    }
    if is_punct(toks, j + 1, '(') {
        return fail(toks, j + 1, "unexpected `(`");
    }
    Ok((vs, j + 1))
}

/// Reads the selection set that starts at token `i`: one or more selections in braces.
#[verifier::spinoff_prover]
#[verifier::rlimit(80)]
pub fn parse_selection_set(toks: &Vec<Token>, i: usize) -> (r: Result<(Spanned<SelectionSet>, usize), ParseError>)
    requires
        tokens_ok(toks@),
        i <= toks@.len(),
    ensures
        r matches Ok((n, j)) ==> n.span == span_at(toks@, i as int, j as int),
        r matches Err(e) ==> e.pos.wf(),
        r matches Ok((ss, j)) ==> i < j <= toks@.len() && ss.node.items@.len() > 0 && toks_of(toks@).subrange(
            i as int,
            j as int,
        ) == selection_set_toks(ss.node) && selection_set_wf(ss.node),
        forall|w: SelectionSet|
            set_ok(w) && #[trigger] starts_with(toks_of(toks@), i as int, selection_set_toks(w)) ==> (r matches Ok((n, j))
                && j == i + selection_set_toks(w).len()),
    decreases toks@.len() - i, 2nat,
{
    let ghost s = toks_of(toks@);
    let ghost has = exists|w: SelectionSet| set_ok(w) && #[trigger] starts_with(s, i as int, selection_set_toks(w));
    let ghost w: SelectionSet = if has {
        choose|w: SelectionSet| set_ok(w) && #[trigger] starts_with(s, i as int, selection_set_toks(w))
    } else {
        arbitrary()
    };
    let ghost xs = w.items@;
    proof {
        if has {
            assert(selection_set_toks(w) =~= seq![Tok::Punct('{')] + (selections_toks(xs) + seq![Tok::Punct('}')]));
            lemma_starts_split(s, i as int, seq![Tok::Punct('{')], selections_toks(xs) + seq![Tok::Punct('}')]);
            assert(s[i as int] == s.subrange(i as int, i + 1)[0]);
            assert(xs.subrange(0, xs.len() as int) =~= xs);
        }
    }
    if !is_punct(toks, i, '{') {
        return fail(toks, i, "expected `{`");
    }
    let mut items: Vec<Spanned<Selection>> = Vec::new();
    let mut j: usize = i + 1;
    proof { assert(s.subrange(i as int + 1, j as int) =~= selections_toks(items@)); }
    while !is_punct(toks, j, '}')
        invariant
            tokens_ok(toks@),
            s == toks_of(toks@),
            i < j <= toks@.len(),
            s.subrange(i as int + 1, j as int) == selections_toks(items@),
            forall|k: int| #![trigger items@[k]] 0 <= k < items@.len() ==> selection_wf(items@[k].node),
            has == exists|w: SelectionSet| set_ok(w) && #[trigger] starts_with(s, i as int, selection_set_toks(w)),
            has ==> set_ok(w) && xs == w.items@ && xs.len() > 0,
            has ==> items@.len() <= xs.len() && starts_with(
                s,
                j as int,
                selections_toks(xs.subrange(items@.len() as int, xs.len() as int)) + seq![Tok::Punct('}')],
            ),
        decreases toks@.len() - j,
    {
        let ghost m = items@.len() as int;
        let ghost e = j + selection_toks(xs[m].node).len();
        proof {
            if has {
                let rest = xs.subrange(m, xs.len() as int);
                if m == xs.len() {
                    assert(rest =~= Seq::<Spanned<Selection>>::empty());
                    assert(s[j as int] == s.subrange(j as int, j + 1)[0]);
                    assert(false);
                }
                crate::round_trip::lemma_selections_front(rest);
                assert(rest.drop_first() =~= xs.subrange(m + 1, xs.len() as int));
                assert(rest[0] == xs[m]);
                let st = selection_toks(xs[m].node);
                let tail = selections_toks(xs.subrange(m + 1, xs.len() as int)) + seq![Tok::Punct('}')];
                assert(selections_toks(rest) + seq![Tok::Punct('}')] =~= st + tail);
                lemma_starts_split(s, j as int, st, tail);
                assert(s[e] == s.subrange(e, e + tail.len())[0]);
                if xs.subrange(m + 1, xs.len() as int).len() > 0 {
                    crate::round_trip::lemma_selections_front(xs.subrange(m + 1, xs.len() as int));
                    crate::round_trip::lemma_selection_first(xs.subrange(m + 1, xs.len() as int)[0].node);
                }
                assert(crate::round_trip::sel_follow(s.subrange(e, s.len() as int)));
                assert(sel_ok(xs[m].node));
                crate::round_trip::lemma_selection_first(xs[m].node);
                assert(sel_pre(s, j as int, xs[m].node));
            }
        }
        if j >= toks.len() {
            return fail(toks, j, "unterminated selection set");
        }
        let (sel, k) = match parse_selection(toks, j) {
            Ok(p) => p,
            Err(e) => return Err(e),
        };
        proof {
            if has {
                assert(k == e);
            }
        }
        let ghost old_items = items@;
        items.push(sel);
        proof {
            lemma_sub(s, i as int + 1, j as int, k as int);
            assert(items@.subrange(0, items@.len() - 1) =~= old_items);
        }
        j = k;
    }
    if items.len() == 0 {
        proof {
            if has {
                crate::round_trip::lemma_selections_front(xs);
                crate::round_trip::lemma_selection_first(xs[0].node);
                assert(s[j as int] == s.subrange(j as int, j + 1)[0]);
            }
        }
        return fail(toks, j, "expected a selection");
    }
    let ss = SelectionSet { items };
    proof {
        lemma_one(s, i as int);
        lemma_one(s, j as int);
        lemma_sub(s, i as int, i as int + 1, j as int);
        lemma_sub(s, i as int, j as int, j as int + 1);
        assert(s.subrange(i as int, j as int + 1) =~= selection_set_toks(ss));
        assert forall|w2: SelectionSet| set_ok(w2) && #[trigger] starts_with(s, i as int, selection_set_toks(w2)) implies j + 1
            == i + selection_set_toks(w2).len() by {
            let r1 = s.subrange(j + 1, s.len() as int);
            let r2 = s.subrange(i + selection_set_toks(w2).len(), s.len() as int);
            assert(s.subrange(i as int, s.len() as int) =~= selection_set_toks(ss) + r1);
            assert(s.subrange(i as int, s.len() as int) =~= selection_set_toks(w2) + r2);
            crate::round_trip::lemma_selection_set_prefix(ss, w2, r1, r2);
        }
    }
    Ok((Spanned { span: span_of(toks, i, j + 1), node: ss }, j + 1))
}

/// Reads the selection that starts at token `i`: a field, a fragment spread or an inline fragment.
#[verifier::spinoff_prover]
#[verifier::rlimit(100)]
fn parse_selection(toks: &Vec<Token>, i: usize) -> (r: Result<(Spanned<Selection>, usize), ParseError>)
    requires
        tokens_ok(toks@),
        i < toks@.len(),
    ensures
        r matches Ok((n, j)) ==> n.span == span_at(toks@, i as int, j as int),
        r matches Err(e) ==> e.pos.wf(),
        r matches Ok((sel, j)) ==> i < j <= toks@.len() && toks_of(toks@).subrange(i as int, j as int)
            == selection_toks(sel.node) && selection_wf(sel.node),
        forall|w: Selection| #[trigger] sel_pre(toks_of(toks@), i as int, w) ==> (r matches Ok((n, j)) && j == i
            + selection_toks(w).len()),
    decreases toks@.len() - i, 1nat,
{
    let ghost s = toks_of(toks@);
    let ghost has = exists|w: Selection| #[trigger] sel_pre(s, i as int, w);
    let ghost w: Selection = if has { choose|w: Selection| #[trigger] sel_pre(s, i as int, w) } else { arbitrary() };
    let ghost wend = i + selection_toks(w).len();
    proof {
        reveal_strlit("on");
        if has {
            crate::round_trip::lemma_selection_first(w);
            assert(s[i as int] == s.subrange(i as int, wend)[0]);
        }
    }
    if toks[i].kind != TokenKind::Spread {
        proof {
            if has {
                assert(w is Field);
                assert(sel_pre(s, i as int, Selection::Field(w->Field_0)));
            }
        }
        let (f, j) = match parse_field(toks, i) {
            Ok(p) => p,
            Err(e) => return Err(e),
        };
        proof {
            if has {
                lemma_sel_end(s, i as int, j as int, w);
            }
        }
        let sp = f.span;
        return Ok((Spanned { span: sp, node: Selection::Field(f) }, j));
    }
    assert(s[i as int] == Tok::Spread);
    proof {
        lemma_one(s, i as int);
        if has {
            assert(!(w is Field));
            assert(s[i + 1] == s.subrange(i as int, wend)[1]);
            if w is InlineFragment {
                let fr = w->InlineFragment_0.node;
                let c = crate::grammar::condition_toks(fr.type_condition);
                let d = directives_toks(fr.directives@);
                let st = selection_set_toks(fr.selection_set.node);
                assert(selection_toks(w) =~= seq![Tok::Spread] + (c + (d + st)));
                lemma_starts_split(s, i as int, seq![Tok::Spread], c + (d + st));
                lemma_starts_split(s, i + 1, c, d + st);
                lemma_starts_split(s, i + 1 + c.len(), d, st);
                let ke = i + 1 + c.len() + d.len();
                assert(s[ke] == s.subrange(ke, ke + st.len())[0]);
                if d.len() > 0 {
                    crate::round_trip::lemma_directives_front(fr.directives@);
                    assert(s[i + 1 + c.len()] == s.subrange(i + 1 + c.len(), i + 1 + c.len() + d.len())[0]);
                }
                if fr.type_condition is Some {
                    assert(s[i + 1] == s.subrange(i + 1, i + 1 + c.len())[0]);
                    assert(s[i + 2] == s.subrange(i + 1, i + 1 + c.len())[1]);
                }
                assert(crate::round_trip::directives_wf(fr.directives@));
                assert(set_ok(fr.selection_set.node));
            } else {
                let sp = w->FragmentSpread_0.node;
                let d = directives_toks(sp.directives@);
                assert(selection_toks(w) =~= seq![Tok::Spread, Tok::Name(sp.fragment_name.node@)] + d);
                lemma_starts_split(s, i as int, seq![Tok::Spread, Tok::Name(sp.fragment_name.node@)], d);
                if d.len() > 0 {
                    crate::round_trip::lemma_directives_front(sp.directives@);
                    assert(s[i + 2] == s.subrange(i + 2, i + 2 + d.len())[0]);
                }
                assert(s.subrange(wend, s.len() as int).len() > 0 ==> s.subrange(wend, s.len() as int)[0] == s[wend]);
                assert(crate::round_trip::directives_wf(sp.directives@));
            }
        }
    }
    if is_word(toks, i + 1, "on") || is_punct(toks, i + 1, '@') || is_punct(toks, i + 1, '{') {
        let (type_condition, k) = if is_word(toks, i + 1, "on") {
            let name = match expect_name(toks, i + 2) {
                Ok(n) => n,
                Err(e) => return Err(e),
            };
            let sp = span_of(toks, i + 1, i + 3);
            proof {
                lemma_one(s, i as int + 1);
                lemma_one(s, i as int + 2);
                lemma_sub(s, i as int + 1, i as int + 2, i as int + 3);
            }
            (Some(Spanned { span: sp, node: TypeCondition::On(name) }), i + 3)
        } else {
            (None, i + 1)
        };
        proof {
            assert(s.subrange(i as int + 1, k as int) =~= crate::grammar::condition_toks(type_condition));
        }
        proof {
            if has {
                let fr = w->InlineFragment_0.node;
                assert(k == i + 1 + crate::grammar::condition_toks(fr.type_condition).len());
            }
        }
        let (directives, k2) = match parse_directives(toks, k) {
            Ok(p) => p,
            Err(e) => return Err(e),
        };
        proof {
            if has {
                let fr = w->InlineFragment_0.node;
                let d = directives_toks(fr.directives@);
                let r1 = s.subrange(k2 as int, s.len() as int);
                let r2 = s.subrange(k + d.len(), s.len() as int);
                assert(s.subrange(k as int, s.len() as int) =~= directives_toks(directives@) + r1);
                assert(s.subrange(k as int, s.len() as int) =~= d + r2);
                if r1.len() > 0 {
                    assert(r1[0] == s[k2 as int]);
                }
                assert(r2[0] == s[k + d.len()]);
                crate::round_trip::lemma_directives_prefix(directives@, fr.directives@, r1, r2);
            }
        }
        let (selection_set, k3) = match parse_selection_set(toks, k2) {
            Ok(p) => p,
            Err(e) => return Err(e),
        };
        proof {
            if has {
                lemma_sel_end(s, i as int, k3 as int, w);
            }
        }
        let fr = InlineFragment { type_condition, directives, selection_set };
        let sel = Selection::InlineFragment(Spanned { span: span_of(toks, i, k3), node: fr });
        proof {
            lemma_sub(s, i as int, i as int + 1, k as int);
            lemma_sub(s, i as int, k as int, k2 as int);
            lemma_sub(s, i as int, k2 as int, k3 as int);
            assert(s.subrange(i as int, k3 as int) =~= selection_toks(sel));
        }
        Ok((Spanned { span: span_of(toks, i, k3), node: sel }, k3))
    } else {
        let name = match expect_name(toks, i + 1) {
            Ok(n) => n,
            Err(e) => return Err(e),
        };
        let (directives, k) = match parse_directives(toks, i + 2) {
            Ok(p) => p,
            Err(e) => return Err(e),
        };
        proof {
            if has {
                let sp = w->FragmentSpread_0.node;
                let d = directives_toks(sp.directives@);
                let r1 = s.subrange(k as int, s.len() as int);
                let r2 = s.subrange(i + 2 + d.len(), s.len() as int);
                assert(s.subrange(i + 2, s.len() as int) =~= directives_toks(directives@) + r1);
                assert(s.subrange(i + 2, s.len() as int) =~= d + r2);
                if r1.len() > 0 {
                    assert(r1[0] == s[k as int]);
                }
                crate::round_trip::lemma_directives_prefix(directives@, sp.directives@, r1, r2);
                lemma_sel_end(s, i as int, k as int, w);
            }
        }
        let sp = FragmentSpread { fragment_name: name, directives };
        let sel = Selection::FragmentSpread(Spanned { span: span_of(toks, i, k), node: sp });
        proof {
            lemma_one(s, i as int + 1);
            lemma_sub(s, i as int, i as int + 1, i as int + 2);
            lemma_sub(s, i as int, i as int + 2, k as int);
            assert(s.subrange(i as int, k as int) =~= selection_toks(sel));
        }
        Ok((Spanned { span: span_of(toks, i, k), node: sel }, k))
    }
}

/// Reads the field that starts at token `i`.
#[verifier::spinoff_prover]
#[verifier::rlimit(100)]
fn parse_field(toks: &Vec<Token>, i: usize) -> (r: Result<(Spanned<Field>, usize), ParseError>)
    requires
        tokens_ok(toks@),
        i < toks@.len(),
    ensures
        r matches Ok((n, j)) ==> n.span == span_at(toks@, i as int, j as int),
        r matches Err(e) ==> e.pos.wf(),
        r matches Ok((f, j)) ==> i < j <= toks@.len() && toks_of(toks@).subrange(i as int, j as int)
            == selection_toks(Selection::Field(f)) && selection_wf(Selection::Field(f)),
        forall|f: Spanned<Field>| #[trigger] sel_pre(toks_of(toks@), i as int, Selection::Field(f)) ==> (r matches Ok((
            n,
            j,
        )) && j == i + selection_toks(Selection::Field(f)).len()),
    decreases toks@.len() - i, 0nat,
{
    let ghost s = toks_of(toks@);
    let ghost has = exists|f: Spanned<Field>| #[trigger] sel_pre(s, i as int, Selection::Field(f));
    let ghost w: Spanned<Field> = if has {
        choose|f: Spanned<Field>| #[trigger] sel_pre(s, i as int, Selection::Field(f))
    } else {
        arbitrary()
    };
    let ghost x = w.node;
    let ghost h = crate::grammar::alias_toks(x.alias) + seq![Tok::Name(x.name.node@)];
    let ghost at = args_toks(x.arguments@);
    let ghost dt = directives_toks(x.directives@);
    let ghost pt = crate::round_trip::sel_part(x);
    let ghost ka = i + h.len() + at.len();
    let ghost kd = ka + dt.len();
    let ghost wend = kd + pt.len();
    proof {
        if has {
            assert(selection_toks(Selection::Field(w)) =~= h + (at + (dt + pt)));
            lemma_starts_split(s, i as int, h, at + (dt + pt));
            lemma_starts_split(s, i + h.len(), at, dt + pt);
            lemma_starts_split(s, ka, dt, pt);
            assert(wend == i + selection_toks(Selection::Field(w)).len());
            let r = s.subrange(wend, s.len() as int);
            assert(crate::round_trip::sel_follow(r));
            if r.len() > 0 {
                assert(r[0] == s[wend]);
            }
            assert(s[i as int] == s.subrange(i as int, i + h.len())[0]);
            if x.alias is Some {
                assert(s[i + 1] == s.subrange(i as int, i + h.len())[1]);
                assert(s[i + 2] == s.subrange(i as int, i + h.len())[2]);
            } else {
                crate::round_trip::lemma_field_tail_head(x, r);
                let t = crate::round_trip::field_tail(x) + r;
                assert(s.subrange(i + 1, s.len() as int) =~= t);
                if i + 1 < s.len() {
                    assert(s[i + 1] == t[0]);
                }
            }
            if pt.len() > 0 {
                assert(s[kd] == s.subrange(kd, wend)[0]);
            }
            if dt.len() > 0 {
                crate::round_trip::lemma_directives_front(x.directives@);
                assert(s[ka] == s.subrange(ka, kd)[0]);
            }
            assert(next_not(s, ka, '('));
            assert(next_not(s, kd, '@') && next_not(s, kd, '('));
            assert(crate::round_trip::directives_wf(x.directives@));
        }
    }
    let first = match expect_name(toks, i) {
        Ok(n) => n,
        Err(e) => return Err(e),
    };
    let (alias, name, k) = if is_punct(toks, i + 1, ':') {
        let name = match expect_name(toks, i + 2) {
            Ok(n) => n,
            Err(e) => return Err(e),
        };
        proof {
            lemma_one(s, i as int);
            lemma_one(s, i as int + 1);
            lemma_one(s, i as int + 2);
            lemma_sub(s, i as int, i as int + 1, i as int + 2);
            lemma_sub(s, i as int, i as int + 2, i as int + 3);
        }
        (Some(first), name, i + 3)
    } else {
        proof { lemma_one(s, i as int); }
        (None, first, i + 1)
    };
    proof {
        assert(s.subrange(i as int, k as int) =~= crate::grammar::alias_toks(alias) + seq![Tok::Name(name.node@)]);
    }
    proof {
        if has {
            assert(k == i + h.len());
        }
    }
    let (arguments, k2) = match parse_arguments(toks, k) {
        Ok(p) => p,
        Err(e) => return Err(e),
    };
    proof {
        if has {
            let r1 = s.subrange(k2 as int, s.len() as int);
            let r2 = s.subrange(ka, s.len() as int);
            assert(s.subrange(k as int, s.len() as int) =~= args_toks(arguments@) + r1);
            assert(s.subrange(k as int, s.len() as int) =~= at + r2);
            if r1.len() > 0 {
                assert(r1[0] == s[k2 as int]);
            }
            if r2.len() > 0 {
                assert(r2[0] == s[ka]);
            }
            crate::round_trip::lemma_args_prefix(arguments@, x.arguments@, r1, r2);
        }
    }
    let (directives, k3) = match parse_directives(toks, k2) {
        Ok(p) => p,
        Err(e) => return Err(e),
    };
    proof {
        if has {
            let r1 = s.subrange(k3 as int, s.len() as int);
            let r2 = s.subrange(kd, s.len() as int);
            assert(s.subrange(k2 as int, s.len() as int) =~= directives_toks(directives@) + r1);
            assert(s.subrange(k2 as int, s.len() as int) =~= dt + r2);
            if r1.len() > 0 {
                assert(r1[0] == s[k3 as int]);
            }
            if r2.len() > 0 {
                assert(r2[0] == s[kd]);
            }
            crate::round_trip::lemma_directives_prefix(directives@, x.directives@, r1, r2);
            if pt.len() > 0 {
                assert(set_ok(x.selection_set.node));
            }
        }
    }
    let (selection_set, k4) = if is_punct(toks, k3, '{') {
        match parse_selection_set(toks, k3) {
            Ok(p) => p,
            Err(e) => return Err(e),
        }
    } else {
        let ss = SelectionSet { items: Vec::new() };
        proof { assert(s.subrange(k3 as int, k3 as int) =~= Seq::<Tok>::empty()); }
        (Spanned { span: span_of(toks, i, k3), node: ss }, k3)
    };
    let f = Field { alias, name, arguments, directives, selection_set };
    let sf = Spanned { span: span_of(toks, i, k4), node: f };
    proof {
        lemma_sub(s, i as int, k as int, k2 as int);
        lemma_sub(s, i as int, k2 as int, k3 as int);
        lemma_sub(s, i as int, k3 as int, k4 as int);
        assert(s.subrange(i as int, k4 as int) =~= selection_toks(Selection::Field(sf)));
        if has {
            assert(k4 == wend);
            lemma_sel_end(s, i as int, k4 as int, Selection::Field(w));
        }
    }
    Ok((sf, k4))
}


/// The parts of an operation after its keyword.
struct OperationParts {
    name: Option<Spanned<String>>,
    variable_definitions: Vec<Spanned<VariableDefinition>>,
    directives: Vec<Spanned<Directive>>,
    selection_set: Spanned<SelectionSet>,
}

/// Reads an operation whose keyword is token `i`: the keyword, an optional
/// name, variable definitions, directives and a selection set.
#[verifier::spinoff_prover]
#[verifier::rlimit(100)]
fn parse_operation_parts(toks: &Vec<Token>, i: usize) -> (r: Result<(OperationParts, usize), ParseError>)
    requires
        tokens_ok(toks@),
        i < toks@.len(),
        toks_of(toks@)[i as int] is Name,
    ensures
        r matches Err(e) ==> e.pos.wf(),
        r matches Ok((p, j)) ==> i < j <= toks@.len() && toks_of(toks@).subrange(i as int, j as int) == op_body_toks(
            toks_of(toks@)[i as int]->Name_0,
            p.name,
            p.variable_definitions@,
            p.directives@,
            p.selection_set.node,
        ) && op_parts_wf(p.variable_definitions@, p.directives@, p.selection_set.node),
        forall|w: OpParts| #[trigger] op_pre(toks_of(toks@), i as int, w) ==> (r matches Ok((p, j)) && j == i
            + op_body_toks(toks_of(toks@)[i as int]->Name_0, w.0, w.1, w.2, w.3).len()),
{
    let ghost s = toks_of(toks@);
    let ghost has = exists|w: OpParts| #[trigger] op_pre(s, i as int, w);
    let ghost w: OpParts = if has { choose|w: OpParts| #[trigger] op_pre(s, i as int, w) } else { arbitrary() };
    let ghost kw = s[i as int]->Name_0;
    let ghost on = crate::grammar::opt_name_toks(w.0);
    let ghost vd = var_defs_toks(w.1);
    let ghost dd = directives_toks(w.2);
    let ghost st = selection_set_toks(w.3);
    let ghost kv = i + 1 + on.len() + vd.len();
    let ghost kd = kv + dd.len();
    proof {
        if has {
            assert(op_body_toks(kw, w.0, w.1, w.2, w.3) =~= seq![Tok::Name(kw)] + (on + (vd + (dd + st))));
            lemma_starts_split(s, i as int, seq![Tok::Name(kw)], on + (vd + (dd + st)));
            lemma_starts_split(s, i + 1, on, vd + (dd + st));
            lemma_starts_split(s, i + 1 + on.len(), vd, dd + st);
            lemma_starts_split(s, kv, dd, st);
            assert(s[kd] == s.subrange(kd, kd + st.len())[0]);
            if dd.len() > 0 {
                crate::round_trip::lemma_directives_front(w.2);
                assert(s[kv] == s.subrange(kv, kd)[0]);
            }
            if vd.len() > 0 {
                assert(s[i + 1 + on.len()] == s.subrange(i + 1 + on.len(), kv)[0]);
            }
            if w.0 is Some {
                assert(s[i + 1] == s.subrange(i + 1, i + 1 + on.len())[0]);
            }
            assert(s[i + 1] == tok_of_at(toks@, i + 1));
            lemma_dirs_ok_wf(w.2);
        }
    }
    let (name, k) = if i + 1 < toks.len() && toks[i + 1].kind == TokenKind::Name {
        let n = match expect_name(toks, i + 1) {
            Ok(n) => n,
            Err(e) => return Err(e),
        };
        proof { lemma_one(s, i as int + 1); }
        (Some(n), i + 2)
    } else {
        (None, i + 1)
    };
    proof {
        lemma_one(s, i as int);
        lemma_sub(s, i as int, i as int + 1, k as int);
        assert(s.subrange(i as int + 1, k as int) =~= crate::grammar::opt_name_toks(name));
        if has {
            assert(k == i + 1 + on.len());
        }
    }
    let (variable_definitions, k2) = match parse_variable_definitions(toks, k) {
        Ok(p) => p,
        Err(e) => return Err(e),
    };
    proof {
        if has {
            let r1 = s.subrange(k2 as int, s.len() as int);
            let r2 = s.subrange(kv, s.len() as int);
            assert(s.subrange(k as int, s.len() as int) =~= var_defs_toks(variable_definitions@) + r1);
            assert(s.subrange(k as int, s.len() as int) =~= vd + r2);
            if r1.len() > 0 {
                assert(r1[0] == s[k2 as int]);
            }
            assert(r2[0] == s[kv]);
            crate::round_trip::lemma_var_defs_prefix(variable_definitions@, w.1, r1, r2);
        }
    }
    let (directives, k3) = match parse_directives(toks, k2) {
        Ok(p) => p,
        Err(e) => return Err(e),
    };
    proof {
        if has {
            let r1 = s.subrange(k3 as int, s.len() as int);
            let r2 = s.subrange(kd, s.len() as int);
            assert(s.subrange(k2 as int, s.len() as int) =~= directives_toks(directives@) + r1);
            assert(s.subrange(k2 as int, s.len() as int) =~= dd + r2);
            if r1.len() > 0 {
                assert(r1[0] == s[k3 as int]);
            }
            assert(r2[0] == s[kd]);
            crate::round_trip::lemma_directives_prefix(directives@, w.2, r1, r2);
        }
    }
    let (selection_set, k4) = match parse_selection_set(toks, k3) {
        Ok(p) => p,
        Err(e) => return Err(e),
    };
    let parts = OperationParts { name, variable_definitions, directives, selection_set };
    proof {
        lemma_sub(s, i as int, k as int, k2 as int);
        lemma_sub(s, i as int, k2 as int, k3 as int);
        lemma_sub(s, i as int, k3 as int, k4 as int);
        assert(s.subrange(i as int, k4 as int) =~= op_body_toks(
            s[i as int]->Name_0,
            parts.name,
            parts.variable_definitions@,
            parts.directives@,
            parts.selection_set.node,
        ));
        assert forall|w2: OpParts| #[trigger] op_pre(s, i as int, w2) implies k4 == i + op_body_toks(kw, w2.0, w2.1, w2.2, w2.3).len() by {
            let r1 = s.subrange(k4 as int, s.len() as int);
            let r2 = s.subrange(i + op_body_toks(kw, w2.0, w2.1, w2.2, w2.3).len(), s.len() as int);
            assert(s.subrange(i as int, s.len() as int) =~= op_body_toks(kw, parts.name, parts.variable_definitions@, parts.directives@, parts.selection_set.node) + r1);
            assert(s.subrange(i as int, s.len() as int) =~= op_body_toks(kw, w2.0, w2.1, w2.2, w2.3) + r2);
            lemma_dirs_ok_wf(w2.2);
            crate::round_trip::lemma_op_body_prefix(kw, parts.name, parts.variable_definitions@, parts.directives@, parts.selection_set.node,
                kw, w2.0, w2.1, w2.2, w2.3, r1, r2);
        }
    }
    Ok((parts, k4))
}

/// Reads the fragment definition whose `fragment` keyword is token `i`.
#[verifier::spinoff_prover]
#[verifier::rlimit(100)]
fn parse_fragment_definition(toks: &Vec<Token>, i: usize) -> (r: Result<(Spanned<FragmentDefinition>, usize), ParseError>)
    requires
        tokens_ok(toks@),
        i < toks@.len(),
        toks_of(toks@)[i as int] == Tok::Name("fragment"@),
    ensures
        r matches Ok((n, j)) ==> n.span == span_at(toks@, i as int, j as int),
        r matches Err(e) ==> e.pos.wf(),
        r matches Ok((f, j)) ==> i < j <= toks@.len() && toks_of(toks@).subrange(i as int, j as int) == fragment_toks(
            f.node,
        ) && directives_wf(f.node.directives@) && selection_set_wf(f.node.selection_set.node),
        forall|f: FragmentDefinition| #[trigger] frag_pre(toks_of(toks@), i as int, f) ==> (r matches Ok((n, j)) && j == i
            + fragment_toks(f).len()),
{
    let ghost s = toks_of(toks@);
    let ghost has = exists|f: FragmentDefinition| #[trigger] frag_pre(s, i as int, f);
    let ghost w: FragmentDefinition = if has { choose|f: FragmentDefinition| #[trigger] frag_pre(s, i as int, f) } else { arbitrary() };
    let ghost cn = match w.type_condition.node { TypeCondition::On(n) => n.node@ };
    let ghost hd = seq![Tok::Name("fragment"@), Tok::Name(w.name.node@), Tok::Name("on"@), Tok::Name(cn)];
    let ghost dd = directives_toks(w.directives@);
    let ghost st = selection_set_toks(w.selection_set.node);
    proof {
        reveal_strlit("on");
        if has {
            assert(fragment_toks(w) =~= hd + (dd + st));
            lemma_starts_split(s, i as int, hd, dd + st);
            lemma_starts_split(s, i + 4, dd, st);
            assert(s[i + 1] == s.subrange(i as int, i + 4)[1]);
            assert(s[i + 2] == s.subrange(i as int, i + 4)[2]);
            assert(s[i + 3] == s.subrange(i as int, i + 4)[3]);
            assert(s[i + 4 + dd.len()] == s.subrange(i + 4 + dd.len(), i + 4 + dd.len() + st.len())[0]);
            if dd.len() > 0 {
                crate::round_trip::lemma_directives_front(w.directives@);
                assert(s[i + 4] == s.subrange(i + 4, i + 4 + dd.len())[0]);
            }
            lemma_dirs_ok_wf(w.directives@);
        }
    }
    let name = match expect_name(toks, i + 1) {
        Ok(n) => n,
        Err(e) => return Err(e),
    };
    proof { reveal_strlit("on"); }
    if !is_word(toks, i + 2, "on") {
        return fail(toks, i + 2, "expected `on`");
    }
    let cond_name = match expect_name(toks, i + 3) {
        Ok(n) => n,
        Err(e) => return Err(e),
    };
    let type_condition = Spanned { span: span_of(toks, i + 2, i + 4), node: TypeCondition::On(cond_name) };
    let (directives, k) = match parse_directives(toks, i + 4) {
        Ok(p) => p,
        Err(e) => return Err(e),
    };
    proof {
        if has {
            let r1 = s.subrange(k as int, s.len() as int);
            let r2 = s.subrange(i + 4 + dd.len(), s.len() as int);
            assert(s.subrange(i + 4, s.len() as int) =~= directives_toks(directives@) + r1);
            assert(s.subrange(i + 4, s.len() as int) =~= dd + r2);
            if r1.len() > 0 {
                assert(r1[0] == s[k as int]);
            }
            assert(r2[0] == s[i + 4 + dd.len()]);
            crate::round_trip::lemma_directives_prefix(directives@, w.directives@, r1, r2);
        }
    }
    let (selection_set, k2) = match parse_selection_set(toks, k) {
        Ok(p) => p,
        Err(e) => return Err(e),
    };
    let f = FragmentDefinition { name, type_condition, directives, selection_set };
    proof {
        lemma_one(s, i as int);
        lemma_one(s, i as int + 1);
        lemma_one(s, i as int + 2);
        lemma_one(s, i as int + 3);
        lemma_sub(s, i as int, i as int + 1, i as int + 2);
        lemma_sub(s, i as int, i as int + 2, i as int + 3);
        lemma_sub(s, i as int, i as int + 3, i as int + 4);
        lemma_sub(s, i as int, i as int + 4, k as int);
        lemma_sub(s, i as int, k as int, k2 as int);
        assert(s.subrange(i as int, k2 as int) =~= fragment_toks(f));
        lemma_def_end(s, i as int, k2 as int, Definition::Fragment(Spanned { span: arbitrary(), node: f }));
        assert forall|f2: FragmentDefinition| #[trigger] frag_pre(s, i as int, f2) implies k2 == i + fragment_toks(f2).len() by {
            let d2 = Definition::Fragment(Spanned { span: arbitrary(), node: f2 });
            assert(def_ok(d2) && starts_with(s, i as int, definition_toks(d2)));
        }
    }
    Ok((Spanned { span: span_of(toks, i, k2), node: f }, k2))
}

/// Reads the definition that starts at token `i`.
#[verifier::spinoff_prover]
#[verifier::rlimit(100)]
fn parse_definition(toks: &Vec<Token>, i: usize) -> (r: Result<(Spanned<Definition>, usize), ParseError>)
    requires
        tokens_ok(toks@),
        i < toks@.len(),
    ensures
        r matches Ok((n, j)) ==> n.span == span_at(toks@, i as int, j as int),
        r matches Err(e) ==> e.pos.wf(),
        r matches Ok((d, j)) ==> i < j <= toks@.len() && toks_of(toks@).subrange(i as int, j as int)
            == definition_toks(d.node) && definition_wf(d.node),
        forall|d: Definition| def_ok(d) && #[trigger] starts_with(toks_of(toks@), i as int, definition_toks(d)) ==> (r matches Ok((
            n,
            j,
        )) && j == i + definition_toks(d).len()),
{
    let ghost s = toks_of(toks@);
    let ghost has = exists|d: Definition| def_ok(d) && #[trigger] starts_with(s, i as int, definition_toks(d));
    let ghost w: Definition = if has { choose|d: Definition| def_ok(d) && #[trigger] starts_with(s, i as int, definition_toks(d)) } else { arbitrary() };
    proof {
        reveal_strlit("query");
        reveal_strlit("mutation");
        reveal_strlit("subscription");
        reveal_strlit("fragment");
        if has {
            crate::round_trip::lemma_definition_head(w);
            crate::round_trip::lemma_keywords_differ();
            assert(s[i as int] == s.subrange(i as int, i + definition_toks(w).len())[0]);
            match w {
                Definition::Operation(o) => match o.node {
                    OperationDefinition::SelectionSet(x) => {},
                    OperationDefinition::Query(q) => {
                        assert(op_pre(s, i as int, (q.node.name, q.node.variable_definitions@, q.node.directives@, q.node.selection_set.node)));
                    },
                    OperationDefinition::Mutation(q) => {
                        assert(op_pre(s, i as int, (q.node.name, q.node.variable_definitions@, q.node.directives@, q.node.selection_set.node)));
                    },
                    OperationDefinition::Subscription(q) => {
                        assert(op_pre(s, i as int, (q.node.name, q.node.variable_definitions@, q.node.directives@, q.node.selection_set.node)));
                    },
                },
                Definition::Fragment(f) => {
                    assert(frag_pre(s, i as int, f.node));
                },
            }
        }
    }
    if is_punct(toks, i, '{') {
        let (ss, j) = match parse_selection_set(toks, i) {
            Ok(p) => p,
            Err(e) => return Err(e),
        };
        let sp = ss.span;
        let op = Spanned { span: sp, node: OperationDefinition::SelectionSet(ss) };
        let d = Spanned { span: sp, node: Definition::Operation(op) };
        proof { lemma_def_end(s, i as int, j as int, d.node); }
        return Ok((d, j));
    }
    if is_word(toks, i, "fragment") {
        let (f, j) = match parse_fragment_definition(toks, i) {
            Ok(p) => p,
            Err(e) => return Err(e),
        };
        let sp = f.span;
        let d = Spanned { span: sp, node: Definition::Fragment(f) };
        proof { lemma_def_end(s, i as int, j as int, d.node); }
        return Ok((d, j));
    }
    let is_query = is_word(toks, i, "query");
    let is_mutation = is_word(toks, i, "mutation");
    let is_subscription = is_word(toks, i, "subscription");
    if !is_query && !is_mutation && !is_subscription {
        return fail(toks, i, "expected an operation or a fragment");
    }
    let (p, j) = match parse_operation_parts(toks, i) {
        Ok(p) => p,
        Err(e) => return Err(e),
    };
    let span = span_of(toks, i, j);
    let op = if is_query {
        OperationDefinition::Query(Spanned {
            span,
            node: Query {
                name: p.name,
                variable_definitions: p.variable_definitions,
                directives: p.directives,
                selection_set: p.selection_set,
            },
        })
    } else if is_mutation {
        OperationDefinition::Mutation(Spanned {
            span,
            node: Mutation {
                name: p.name,
                variable_definitions: p.variable_definitions,
                directives: p.directives,
                selection_set: p.selection_set,
            },
        })
    } else {
        OperationDefinition::Subscription(Spanned {
            span,
            node: Subscription {
                name: p.name,
                variable_definitions: p.variable_definitions,
                directives: p.directives,
                selection_set: p.selection_set,
            },
        })
    };
    proof { assert(s.subrange(i as int, j as int) == operation_toks(op)); }
    let d = Spanned { span, node: Definition::Operation(Spanned { span, node: op }) };
    proof { lemma_def_end(s, i as int, j as int, d.node); }
    Ok((d, j))
}

/// Reads a document from its tokens: one or more definitions, up to the last token.
#[verifier::spinoff_prover]
#[verifier::rlimit(60)]
pub fn parse_document(toks: &Vec<Token>) -> (r: Result<Document, ParseError>)
    requires
        tokens_ok(toks@),
    ensures
        r matches Err(e) ==> e.pos.wf(),
        r matches Ok(d) ==> d.definitions@.len() > 0 && toks_of(toks@) == document_toks(d.definitions@) && document_wf(
            d.definitions@,
        ),
        (exists|defs: Seq<Spanned<Definition>>| doc_ok(defs) && #[trigger] document_toks(defs) == toks_of(toks@)) ==> r is Ok,
{
    let ghost s = toks_of(toks@);
    let ghost has = exists|defs: Seq<Spanned<Definition>>| doc_ok(defs) && #[trigger] document_toks(defs) == s;
    let ghost w: Seq<Spanned<Definition>> = if has {
        choose|defs: Seq<Spanned<Definition>>| doc_ok(defs) && #[trigger] document_toks(defs) == s
    } else {
        Seq::empty()
    };
    let mut definitions: Vec<Spanned<Definition>> = Vec::new();
    let mut j: usize = 0;
    proof {
        assert(s.subrange(0, 0) =~= document_toks(definitions@));
        if has {
            assert(w.subrange(0, w.len() as int) =~= w);
            assert(s.subrange(0, s.len() as int) =~= s);
        }
    }
    while j < toks.len()
        invariant
            tokens_ok(toks@),
            s == toks_of(toks@),
            j <= toks@.len(),
            s.subrange(0, j as int) == document_toks(definitions@),
            document_wf(definitions@),
            has == exists|defs: Seq<Spanned<Definition>>| doc_ok(defs) && #[trigger] document_toks(defs) == s,
            has ==> doc_ok(w),
            has ==> definitions@.len() <= w.len() && starts_with(
                s,
                j as int,
                document_toks(w.subrange(definitions@.len() as int, w.len() as int)),
            ) && j + document_toks(w.subrange(definitions@.len() as int, w.len() as int)).len() == s.len(),
        decreases toks@.len() - j,
    {
        let ghost m = definitions@.len() as int;
        proof {
            if has {
                let rest = w.subrange(m, w.len() as int);
                if m == w.len() {
                    assert(rest =~= Seq::<Spanned<Definition>>::empty());
                    assert(false);
                }
                crate::round_trip::lemma_document_front(rest);
                assert(rest.drop_first() =~= w.subrange(m + 1, w.len() as int));
                assert(rest[0] == w[m]);
                lemma_starts_split(s, j as int, definition_toks(w[m].node), document_toks(w.subrange(m + 1, w.len() as int)));
                assert(def_ok(w[m].node));
            }
        }
        let (d, k) = match parse_definition(toks, j) {
            Ok(p) => p,
            Err(e) => return Err(e),
        };
        let ghost old_defs = definitions@;
        definitions.push(d);
        proof {
            lemma_sub(s, 0, j as int, k as int);
            assert(definitions@.drop_last() =~= old_defs);
        }
        j = k;
    }
    if definitions.len() == 0 {
        proof {
            if has {
                crate::round_trip::lemma_document_front(w);
                crate::round_trip::lemma_definition_head(w[0].node);
            }
        }
        return fail(toks, 0, "expected a definition");
    }
    proof { assert(s.subrange(0, s.len() as int) =~= s); }
    Ok(Document { definitions })
}

/// Parses query text into a document whose tokens are exactly those of the text.
pub fn parse_query(input: &str) -> (r: Result<Document, ParseError>)
    ensures
        r matches Err(e) ==> e.pos.wf(),
        r matches Ok(d) ==> d.definitions@.len() > 0 && document_wf(d.definitions@) && exists|ts: Seq<Token>|
            tokens_wf(ts, input@) && crate::lexer::tokens_cover(ts, input@) && #[trigger] toks_of(ts) == document_toks(
                d.definitions@,
            ),
{
    let toks = match tokenize(input) {
        Ok(t) => t,
        Err(e) => return Err(e),
    };
    proof {
        assert forall|k: int| 0 <= k < toks@.len() && #[trigger] toks@[k].kind == TokenKind::Punct implies toks@[k].text@.len() == 1 by {
            assert(crate::lexer::token_wf(toks@[k], input@));
        }
        assert forall|k: int| 0 <= k < toks@.len() implies (#[trigger] toks@[k]).start.wf() && toks@[k].end.wf() by {
            assert(crate::lexer::token_wf(toks@[k], input@));
        }
    }
    if toks.len() >= usize::MAX - 2 {
        return Err(ParseError { message: String::from_str("input too long"), pos: Pos { line: 1, column: 1 } });
    }
    parse_document(&toks)
}

} // verus!
