//! The round-trip law: serializing a tree and parsing the result
//! reconstructs the same shape.
//!
//! The law holds for the trees the parser itself is meant to produce, which
//! the predicate [`round_trip_wf`] captures: every name is a printable
//! token, a single-child node's child is a bare value, bare leaves only
//! close a scope, and only the root carries the sentinel name with
//! children. Outside that shape the textual grammar genuinely loses
//! information: a node whose only child itself has children serializes as
//! `name = value`, dropping the grandchildren.

use vstd::prelude::*;

use crate::node::{NodeModel, same_shape};
use crate::parser::{TokState, tok_step, tok_fold, tokens_of, tok_init, tok_flush, eq_tok,
    open_tok, close_tok, root_name, leaf_model, ParseState, pstep, pfold, materialize_pending,
    collapse_stack, parse_toks, parse_result, leaf_seq, lemma_tok_fold_concat,
    lemma_pfold_concat};
use crate::serialize::{indent_seq, ser_node, ser_children};
use crate::text::is_wspace;
use crate::tree::TreeModel;

verus! {

// ---------------------------------------------------------------------------
// Which trees round-trip.
// ---------------------------------------------------------------------------
/// A name the tokenizer hands back unchanged: non-empty, free of
/// whitespace and comment marks, and not one of the structural tokens.
pub open spec fn printable_name(w: Seq<char>) -> bool {
    &&& w.len() > 0
    &&& forall|i: int| 0 <= i < w.len() ==> !is_wspace(#[trigger] w[i]) && w[i] != '#'
    &&& w != eq_tok()
    &&& w != open_tok()
    &&& w != close_tok()
}

/// Bare leaves only stand at the end of a scope: after a leaf child, every
/// child is a leaf. (A leaf in front of a key would be discarded by the
/// `=` of the following pair on re-parse.)
pub open spec fn leaves_last(cs: Seq<NodeModel>) -> bool {
    forall|i: int, j: int|
        0 <= i < j < cs.len() && #[trigger] cs[i].children.len() == 0 ==> #[trigger] cs[j].children.len() == 0
}

/// A non-root node whose serialization re-parses to the same shape.
pub open spec fn round_trip_wf(n: NodeModel) -> bool
    decreases n, 1nat,
{
    &&& printable_name(n.name)
    &&& if n.children.len() == 0 {
        true
    } else if n.children.len() == 1 && n.name != root_name() {
        printable_name(n.children[0].name) && n.children[0].children.len() == 0
    } else {
        n.name != root_name() && round_trip_wf_children(n.children)
    }
}

pub open spec fn round_trip_wf_children(cs: Seq<NodeModel>) -> bool
    decreases cs, 0nat,
{
    &&& forall|i: int| 0 <= i < cs.len() ==> round_trip_wf(#[trigger] cs[i])
    &&& leaves_last(cs)
}

/// A whole document that round-trips: a sentinel-named root with at least
/// one child, its children in round-trip shape.
pub open spec fn round_trip_wf_root(root: NodeModel) -> bool {
    &&& root.name == root_name()
    &&& root.children.len() >= 1
    &&& round_trip_wf_children(root.children)
}

// ---------------------------------------------------------------------------
// The token stream of a serialized tree.
// ---------------------------------------------------------------------------
/// The tokens a node's serialization contributes.
pub open spec fn ser_toks_node(n: NodeModel) -> Seq<Seq<char>>
    decreases n, 1nat,
{
    if n.children.len() == 0 {
        seq![n.name]
    } else if n.children.len() == 1 && n.name != root_name() {
        seq![n.name, eq_tok(), n.children[0].name]
    } else {
        seq![n.name, eq_tok(), open_tok()] + ser_toks_children(n.children) + seq![close_tok()]
    }
}

pub open spec fn ser_toks_children(cs: Seq<NodeModel>) -> Seq<Seq<char>>
    decreases cs, 0nat,
{
    if cs.len() == 0 {
        Seq::empty()
    } else {
        ser_toks_node(cs[0]) + ser_toks_children(cs.subrange(1, cs.len() as int))
    }
}

// ---------------------------------------------------------------------------
// Tokenization of serialized text, piece by piece.
// ---------------------------------------------------------------------------
/// A tokenizer state between tokens: nothing accumulated, no comment open.
pub open spec fn clean(toks: Seq<Seq<char>>) -> TokState {
    TokState { in_comment: false, cur: Seq::empty(), toks }
}

proof fn lemma_fold_one(st: TokState, c: char)
    ensures
        tok_fold(st, seq![c]) == tok_step(st, c),
{
    assert(seq![c].drop_first() =~= Seq::<char>::empty());
    assert(tok_fold(tok_step(st, c), seq![c].drop_first()) == tok_step(st, c));
}

proof fn lemma_indent_all_spaces(depth: nat)
    ensures
        forall|i: int| 0 <= i < indent_seq(depth).len() ==> indent_seq(depth)[i] == ' ',
    decreases depth,
{
    if depth > 0 {
        lemma_indent_all_spaces((depth - 1) as nat);
        let a = indent_seq((depth - 1) as nat);
        assert forall|i: int| 0 <= i < indent_seq(depth).len() implies indent_seq(depth)[i]
            == ' ' by {
            if i < a.len() {
                assert(indent_seq(depth)[i] == a[i]);
            } else {
                assert(indent_seq(depth)[i] == seq![' ', ' '][i - a.len()]);
            }
        }
    }
}

proof fn lemma_fold_spaces(toks: Seq<Seq<char>>, s: Seq<char>)
    requires
        forall|i: int| 0 <= i < s.len() ==> s[i] == ' ',
    ensures
        tok_fold(clean(toks), s) == clean(toks),
    decreases s.len(),
{
    if s.len() > 0 {
        assert(is_wspace(s[0]));
        assert(tok_step(clean(toks), s[0]) =~= clean(toks));
        lemma_fold_spaces(toks, s.drop_first());
    }
}

/// Characters that extend the current token: not whitespace, not `#`.
pub open spec fn plain_chars(w: Seq<char>) -> bool {
    forall|i: int| 0 <= i < w.len() ==> !is_wspace(#[trigger] w[i]) && w[i] != '#'
}

proof fn lemma_fold_word_ext(toks: Seq<Seq<char>>, cur: Seq<char>, w: Seq<char>)
    requires
        plain_chars(w),
    ensures
        tok_fold(TokState { in_comment: false, cur, toks }, w) == (TokState {
            in_comment: false,
            cur: cur + w,
            toks,
        }),
    decreases w.len(),
{
    if w.len() == 0 {
        assert(cur + w =~= cur);
        assert(TokState { in_comment: false, cur, toks } =~= TokState {
            in_comment: false,
            cur: cur + w,
            toks,
        });
    } else {
        assert(tok_step(TokState { in_comment: false, cur, toks }, w[0]) =~= TokState {
            in_comment: false,
            cur: cur.push(w[0]),
            toks,
        });
        assert(plain_chars(w.drop_first()));
        lemma_fold_word_ext(toks, cur.push(w[0]), w.drop_first());
        assert(cur.push(w[0]) + w.drop_first() =~= cur + w);
    }
}

proof fn lemma_fold_word(toks: Seq<Seq<char>>, w: Seq<char>)
    requires
        plain_chars(w),
    ensures
        tok_fold(clean(toks), w) == (TokState { in_comment: false, cur: w, toks }),
{
    lemma_fold_word_ext(toks, Seq::empty(), w);
    assert(Seq::<char>::empty() + w =~= w);
}

/// A leaf line `indent name \n` contributes the single token `name`.
proof fn lemma_line_leaf(toks: Seq<Seq<char>>, depth: nat, name: Seq<char>)
    requires
        printable_name(name),
    ensures
        tok_fold(clean(toks), indent_seq(depth) + name + seq!['\n']) == clean(toks.push(name)),
{
    let a = indent_seq(depth);
    lemma_tok_fold_concat(clean(toks), a + name, seq!['\n']);
    lemma_tok_fold_concat(clean(toks), a, name);
    lemma_indent_all_spaces(depth);
    lemma_fold_spaces(toks, a);
    lemma_fold_word(toks, name);
    lemma_fold_one(TokState { in_comment: false, cur: name, toks }, '\n');
    assert(is_wspace('\n'));
    assert(tok_step(TokState { in_comment: false, cur: name, toks }, '\n') =~= clean(
        toks.push(name),
    ));
}

/// The ` = ` joiner flushes the pending key and contributes the `=` token.
proof fn lemma_fold_joiner(toks: Seq<Seq<char>>, cur: Seq<char>)
    requires
        cur.len() > 0,
    ensures
        tok_fold(TokState { in_comment: false, cur, toks }, seq![' ', '=', ' ']) == clean(
            toks.push(cur).push(eq_tok()),
        ),
{
    let st0 = TokState { in_comment: false, cur, toks };
    assert(seq![' ', '=', ' '] =~= seq![' '] + seq!['='] + seq![' ']);
    lemma_tok_fold_concat(st0, seq![' '] + seq!['='], seq![' ']);
    lemma_tok_fold_concat(st0, seq![' '], seq!['=']);
    lemma_fold_one(st0, ' ');
    assert(is_wspace(' '));
    let st1 = clean(toks.push(cur));
    assert(tok_step(st0, ' ') =~= st1);
    lemma_fold_one(st1, '=');
    assert(!is_wspace('='));
    let st2 = TokState { in_comment: false, cur: seq!['='], toks: toks.push(cur) };
    assert(Seq::<char>::empty().push('=') =~= seq!['=']);
    assert(tok_step(st1, '=') =~= st2);
    lemma_fold_one(st2, ' ');
    assert(tok_step(st2, ' ') =~= clean(toks.push(cur).push(eq_tok())));
}

/// A pair line `indent key = value \n` contributes `key`, `=`, `value`.
proof fn lemma_line_kv(toks: Seq<Seq<char>>, depth: nat, key: Seq<char>, value: Seq<char>)
    requires
        printable_name(key),
        printable_name(value),
    ensures
        tok_fold(clean(toks), indent_seq(depth) + key + seq![' ', '=', ' '] + value + seq!['\n'])
            == clean(toks.push(key).push(eq_tok()).push(value)),
{
    let a = indent_seq(depth);
    let mid = seq![' ', '=', ' '];
    lemma_tok_fold_concat(clean(toks), a + key + mid + value, seq!['\n']);
    lemma_tok_fold_concat(clean(toks), a + key + mid, value);
    lemma_tok_fold_concat(clean(toks), a + key, mid);
    lemma_tok_fold_concat(clean(toks), a, key);
    lemma_indent_all_spaces(depth);
    lemma_fold_spaces(toks, a);
    lemma_fold_word(toks, key);
    lemma_fold_joiner(toks, key);
    let t2 = toks.push(key).push(eq_tok());
    lemma_fold_word(t2, value);
    lemma_fold_one(TokState { in_comment: false, cur: value, toks: t2 }, '\n');
    assert(is_wspace('\n'));
    assert(tok_step(TokState { in_comment: false, cur: value, toks: t2 }, '\n') =~= clean(
        t2.push(value),
    ));
}

/// A block header `indent name = { \n` contributes `name`, `=`, `{`.
proof fn lemma_line_open(toks: Seq<Seq<char>>, depth: nat, name: Seq<char>)
    requires
        printable_name(name),
    ensures
        tok_fold(clean(toks), indent_seq(depth) + name + seq![' ', '=', ' ', '{', '\n']) == clean(
            toks.push(name).push(eq_tok()).push(open_tok()),
        ),
{
    let a = indent_seq(depth);
    let tail = seq![' ', '=', ' ', '{', '\n'];
    assert(a + name + tail =~= (a + name + seq![' ', '=', ' ']) + seq!['{'] + seq!['\n']);
    lemma_tok_fold_concat(clean(toks), (a + name + seq![' ', '=', ' ']) + seq!['{'], seq!['\n']);
    lemma_tok_fold_concat(clean(toks), a + name + seq![' ', '=', ' '], seq!['{']);
    lemma_tok_fold_concat(clean(toks), a + name, seq![' ', '=', ' ']);
    lemma_tok_fold_concat(clean(toks), a, name);
    lemma_indent_all_spaces(depth);
    lemma_fold_spaces(toks, a);
    lemma_fold_word(toks, name);
    lemma_fold_joiner(toks, name);
    let t2 = toks.push(name).push(eq_tok());
    lemma_fold_one(clean(t2), '{');
    assert(!is_wspace('{'));
    let st3 = TokState { in_comment: false, cur: seq!['{'], toks: t2 };
    assert(Seq::<char>::empty().push('{') =~= seq!['{']);
    assert(tok_step(clean(t2), '{') =~= st3);
    lemma_fold_one(st3, '\n');
    assert(is_wspace('\n'));
    assert(tok_step(st3, '\n') =~= clean(t2.push(open_tok())));
}

/// A block footer `indent } \n` contributes `}`.
proof fn lemma_line_close(toks: Seq<Seq<char>>, depth: nat)
    ensures
        tok_fold(clean(toks), indent_seq(depth) + seq!['}', '\n']) == clean(
            toks.push(close_tok()),
        ),
{
    let a = indent_seq(depth);
    assert(a + seq!['}', '\n'] =~= (a + seq!['}']) + seq!['\n']);
    lemma_tok_fold_concat(clean(toks), a + seq!['}'], seq!['\n']);
    lemma_tok_fold_concat(clean(toks), a, seq!['}']);
    lemma_indent_all_spaces(depth);
    lemma_fold_spaces(toks, a);
    lemma_fold_one(clean(toks), '}');
    assert(!is_wspace('}'));
    let st1 = TokState { in_comment: false, cur: seq!['}'], toks };
    assert(Seq::<char>::empty().push('}') =~= seq!['}']);
    assert(tok_step(clean(toks), '}') =~= st1);
    lemma_fold_one(st1, '\n');
    assert(is_wspace('\n'));
    assert(tok_step(st1, '\n') =~= clean(toks.push(close_tok())));
}

/// Tokenizing a node's serialization appends exactly its token stream.
proof fn lemma_tokens_of_ser_node(n: NodeModel, depth: nat, toks: Seq<Seq<char>>)
    requires
        round_trip_wf(n),
    ensures
        tok_fold(clean(toks), ser_node(n, depth)) == clean(toks + ser_toks_node(n)),
    decreases n, 1nat,
{
    if n.children.len() == 0 {
        lemma_line_leaf(toks, depth, n.name);
        assert(toks.push(n.name) =~= toks + seq![n.name]);
    } else if n.children.len() == 1 && n.name != root_name() {
        assert(ser_node(n, depth) == indent_seq(depth) + n.name + seq![' ', '=', ' ']
            + n.children[0].name + seq!['\n']);
        lemma_line_kv(toks, depth, n.name, n.children[0].name);
        assert(toks.push(n.name).push(eq_tok()).push(n.children[0].name) =~= toks + seq![
            n.name,
            eq_tok(),
            n.children[0].name,
        ]);
    } else {
        let header = indent_seq(depth) + n.name + seq![' ', '=', ' ', '{', '\n'];
        let footer = indent_seq(depth) + seq!['}', '\n'];
        assert(ser_node(n, depth) == header + ser_children(n.children, depth + 1) + footer);
        lemma_tok_fold_concat(
            clean(toks),
            header + ser_children(n.children, depth + 1),
            footer,
        );
        lemma_tok_fold_concat(clean(toks), header, ser_children(n.children, depth + 1));
        lemma_line_open(toks, depth, n.name);
        let t1 = toks.push(n.name).push(eq_tok()).push(open_tok());
        lemma_tokens_of_ser_children(n.children, depth + 1, t1);
        let t2 = t1 + ser_toks_children(n.children);
        lemma_line_close(t2, depth);
        assert(t2.push(close_tok()) =~= toks + ser_toks_node(n));
    }
}

proof fn lemma_tokens_of_ser_children(cs: Seq<NodeModel>, depth: nat, toks: Seq<Seq<char>>)
    requires
        forall|i: int| 0 <= i < cs.len() ==> round_trip_wf(#[trigger] cs[i]),
    ensures
        tok_fold(clean(toks), ser_children(cs, depth)) == clean(toks + ser_toks_children(cs)),
    decreases cs, 0nat,
{
    if cs.len() == 0 {
        assert(toks + ser_toks_children(cs) =~= toks);
        assert(clean(toks) =~= clean(toks + ser_toks_children(cs)));
    } else {
        let rest = cs.subrange(1, cs.len() as int);
        lemma_tok_fold_concat(clean(toks), ser_node(cs[0], depth), ser_children(rest, depth));
        lemma_tokens_of_ser_node(cs[0], depth, toks);
        lemma_tokens_of_ser_children(rest, depth, toks + ser_toks_node(cs[0]));
        assert((toks + ser_toks_node(cs[0])) + ser_toks_children(rest) =~= toks + (ser_toks_node(
            cs[0],
        ) + ser_toks_children(rest)));
    }
}

/// The tokens of a serialized document are its root's children's tokens.
proof fn lemma_tokens_of_serialized_root(root: NodeModel)
    requires
        round_trip_wf_root(root),
    ensures
        tokens_of(ser_node(root, 0)) == ser_toks_children(root.children),
{
    assert(ser_node(root, 0) == Seq::<char>::empty() + ser_children(root.children, 1)
        + Seq::<char>::empty());
    assert(Seq::<char>::empty() + ser_children(root.children, 1) + Seq::<char>::empty()
        =~= ser_children(root.children, 1));
    lemma_tokens_of_ser_children(root.children, 1, Seq::empty());
    assert(tok_fold(tok_init(), ser_children(root.children, 1)) =~= clean(
        Seq::<Seq<char>>::empty() + ser_toks_children(root.children),
    ));
    assert(Seq::<Seq<char>>::empty() + ser_toks_children(root.children) =~= ser_toks_children(
        root.children,
    ));
}

// ---------------------------------------------------------------------------
// Parsing the token stream back into the same shape.
// ---------------------------------------------------------------------------
/// The children's names, in order.
pub open spec fn names_of(cs: Seq<NodeModel>) -> Seq<Seq<char>> {
    Seq::new(cs.len(), |i: int| cs[i].name)
}

/// How many children stand before the trailing run of leaves.
pub open spec fn nonleaf_prefix_len(cs: Seq<NodeModel>) -> nat
    decreases cs.len(),
{
    if cs.len() == 0 {
        0
    } else if cs[0].children.len() == 0 {
        0
    } else {
        1 + nonleaf_prefix_len(cs.subrange(1, cs.len() as int))
    }
}

proof fn lemma_nonleaf_prefix(cs: Seq<NodeModel>)
    requires
        leaves_last(cs),
    ensures
        nonleaf_prefix_len(cs) <= cs.len(),
        forall|j: int| 0 <= j < nonleaf_prefix_len(cs) ==> #[trigger] cs[j].children.len() > 0,
        forall|j: int|
            nonleaf_prefix_len(cs) <= j < cs.len() ==> #[trigger] cs[j].children.len() == 0,
    decreases cs.len(),
{
    if cs.len() > 0 {
        if cs[0].children.len() == 0 {
            assert forall|j: int| 0 <= j < cs.len() implies #[trigger] cs[j].children.len()
                == 0 by {
                if j > 0 {
                    assert(cs[0].children.len() == 0 && 0 < j < cs.len());
                }
            }
        } else {
            let rest = cs.subrange(1, cs.len() as int);
            assert(leaves_last(rest)) by {
                assert forall|i: int, j: int|
                    0 <= i < j < rest.len() && #[trigger] rest[i].children.len()
                        == 0 implies #[trigger] rest[j].children.len() == 0 by {
                    assert(cs[i + 1].children.len() == 0);
                    assert(cs[j + 1].children.len() == 0);
                }
            }
            lemma_nonleaf_prefix(rest);
            assert(nonleaf_prefix_len(cs) == 1 + nonleaf_prefix_len(rest));
            assert forall|j: int|
                0 <= j < nonleaf_prefix_len(cs) implies #[trigger] cs[j].children.len() > 0 by {
                if j > 0 {
                    assert(rest[j - 1].children.len() > 0);
                    assert(cs[j] == rest[j - 1]);
                }
            }
            assert forall|j: int|
                nonleaf_prefix_len(cs) <= j < cs.len() implies #[trigger] cs[j].children.len()
                == 0 by {
                assert(rest[j - 1].children.len() == 0);
                assert(cs[j] == rest[j - 1]);
            }
        }
    }
}

/// The three structural tokens are pairwise distinct.
proof fn lemma_tok_distinct()
    ensures
        eq_tok() != open_tok(),
        eq_tok() != close_tok(),
        open_tok() != close_tok(),
{
    assert(eq_tok()[0] != open_tok()[0]);
    assert(eq_tok()[0] != close_tok()[0]);
    assert(open_tok()[0] != close_tok()[0]);
}

proof fn lemma_pfold_one(st: ParseState, t: Seq<char>)
    ensures
        pfold(st, seq![t]) == pstep(st, t),
{
    assert(seq![t].drop_first() =~= Seq::<Seq<char>>::empty());
    match pstep(st, t) {
        None => {
        },
        Some(m) => {
            assert(pfold(m, seq![t].drop_first()) == Some(m));
        },
    }
}

/// A run of bare tokens only grows the pending leaf list.
proof fn lemma_pfold_leaf_run(cs: Seq<NodeModel>, st: ParseState)
    requires
        st.equal_seen == false,
        forall|i: int| 0 <= i < cs.len() ==> printable_name(#[trigger] cs[i].name),
        forall|i: int| 0 <= i < cs.len() ==> #[trigger] cs[i].children.len() == 0,
    ensures
        pfold(st, ser_toks_children(cs)) matches Some(st2) && st2.stack == st.stack && st2.pending
            == st.pending + names_of(cs) && st2.equal_seen == false && st2.next_id == st.next_id,
    decreases cs.len(),
{
    if cs.len() == 0 {
        assert(ser_toks_children(cs) == Seq::<Seq<char>>::empty());
        assert(pfold(st, ser_toks_children(cs)) == Some(st));
        assert(st.pending + names_of(cs) =~= st.pending);
    } else {
        let rest = cs.subrange(1, cs.len() as int);
        assert(ser_toks_node(cs[0]) == seq![cs[0].name]);
        lemma_pfold_concat(st, ser_toks_node(cs[0]), ser_toks_children(rest));
        lemma_pfold_one(st, cs[0].name);
        let a = cs[0].name;
        assert(a != eq_tok() && a != open_tok() && a != close_tok());
        let s1 = pstep(st, a)->0;
        assert(s1.stack == st.stack && s1.pending == st.pending.push(a) && s1.equal_seen == false
            && s1.next_id == st.next_id);
        lemma_pfold_leaf_run(rest, s1);
        let st2 = pfold(st, ser_toks_children(cs))->0;
        assert(st2.pending =~= st.pending + names_of(cs));
    }
}

/// Parsing the serialized children of a scope appends, to the scope on top
/// of the stack, one same-shaped child for every non-leaf serialized child,
/// and leaves the trailing bare leaves pending.
proof fn lemma_pfold_ser_children(cs: Seq<NodeModel>, st: ParseState)
    requires
        st.stack.len() >= 1,
        st.pending == Seq::<Seq<char>>::empty(),
        st.equal_seen == false,
        forall|i: int| 0 <= i < cs.len() ==> round_trip_wf(#[trigger] cs[i]),
        leaves_last(cs),
    ensures
        pfold(st, ser_toks_children(cs)) matches Some(st2) && ({
            let k = nonleaf_prefix_len(cs);
            let top = st.stack.last();
            &&& st2.stack.len() == st.stack.len()
            &&& forall|j: int| 0 <= j < st.stack.len() - 1 ==> st2.stack[j] == st.stack[j]
            &&& st2.stack.last().name == top.name
            &&& st2.stack.last().id == top.id
            &&& st2.stack.last().children.len() == top.children.len() + k
            &&& forall|j: int|
                0 <= j < top.children.len() ==> st2.stack.last().children[j] == top.children[j]
            &&& forall|j: int|
                0 <= j < k ==> same_shape(
                    #[trigger] st2.stack.last().children[top.children.len() + j],
                    cs[j],
                )
            &&& st2.pending == names_of(cs.subrange(k as int, cs.len() as int))
            &&& st2.equal_seen == false
        }),
    decreases cs, 0nat,
{
    lemma_nonleaf_prefix(cs);
    lemma_tok_distinct();
    let k = nonleaf_prefix_len(cs);
    let top = st.stack.last();
    if cs.len() == 0 {
        assert(pfold(st, ser_toks_children(cs)) == Some(st));
        assert(names_of(cs.subrange(0, 0)) =~= Seq::<Seq<char>>::empty());
    } else if cs[0].children.len() == 0 {
        assert(k == 0);
        lemma_pfold_leaf_run(cs, st);
        let st2 = pfold(st, ser_toks_children(cs))->0;
        assert(st2.pending =~= names_of(cs.subrange(0, cs.len() as int))) by {
            assert(cs.subrange(0, cs.len() as int) =~= cs);
            assert(Seq::<Seq<char>>::empty() + names_of(cs) =~= names_of(cs));
        }
    } else {
        let rest = cs.subrange(1, cs.len() as int);
        assert(round_trip_wf(cs[0]));
        assert(leaves_last(rest)) by {
            assert forall|i: int, j: int|
                0 <= i < j < rest.len() && #[trigger] rest[i].children.len()
                    == 0 implies #[trigger] rest[j].children.len() == 0 by {
                assert(cs[i + 1].children.len() == 0);
                assert(cs[j + 1].children.len() == 0);
            }
        }
        let a = cs[0].name;
        assert(printable_name(a));
        lemma_pfold_concat(st, ser_toks_node(cs[0]), ser_toks_children(rest));
        let s_after: ParseState;
        if cs[0].children.len() == 1 {
            // a key = value pair
            assert(cs[0].name != root_name());
            let v = cs[0].children[0].name;
            assert(printable_name(v));
            assert(ser_toks_node(cs[0]) == seq![a, eq_tok(), v]);
            assert(seq![a, eq_tok(), v] =~= seq![a] + seq![eq_tok()] + seq![v]);
            lemma_pfold_concat(st, seq![a] + seq![eq_tok()], seq![v]);
            lemma_pfold_concat(st, seq![a], seq![eq_tok()]);
            lemma_pfold_one(st, a);
            let s1 = pstep(st, a)->0;
            lemma_pfold_one(s1, eq_tok());
            let s2 = pstep(s1, eq_tok())->0;
            assert(s2.stack == st.stack && s2.pending == Seq::<Seq<char>>::empty()
                && s2.equal_seen == true && s2.last == a);
            lemma_pfold_one(s2, v);
            let s3 = pstep(s2, v)->0;
            let key = NodeModel {
                name: a,
                id: s2.next_id,
                children: seq![leaf_model(v, (s2.next_id + 1) as nat)],
            };
            assert(s3.stack == st.stack.update(st.stack.len() - 1, NodeModel {
                name: top.name,
                id: top.id,
                children: top.children.push(key),
            }));
            assert(same_shape(key, cs[0])) by {
                assert(key.children[0].name == cs[0].children[0].name);
                assert(same_shape(key.children[0], cs[0].children[0]));
            }
            assert(s3.pending == Seq::<Seq<char>>::empty() && s3.equal_seen == false);
            assert(s3.stack.len() == st.stack.len());
            assert(pfold(st, ser_toks_node(cs[0])) == Some(s3));
            s_after = s3;
            assert(s_after.stack.last().children.len() == top.children.len() + 1);
            assert(same_shape(s_after.stack.last().children[top.children.len() as int], cs[0]));
        } else {
            // a nested block
            assert(cs[0].name != root_name());
            assert(round_trip_wf_children(cs[0].children));
            assert(ser_toks_node(cs[0]) == seq![a, eq_tok(), open_tok()] + ser_toks_children(
                cs[0].children,
            ) + seq![close_tok()]);
            lemma_pfold_concat(
                st,
                seq![a, eq_tok(), open_tok()] + ser_toks_children(cs[0].children),
                seq![close_tok()],
            );
            lemma_pfold_concat(st, seq![a, eq_tok(), open_tok()], ser_toks_children(cs[0].children));
            assert(seq![a, eq_tok(), open_tok()] =~= seq![a] + seq![eq_tok()] + seq![open_tok()]);
            lemma_pfold_concat(st, seq![a] + seq![eq_tok()], seq![open_tok()]);
            lemma_pfold_concat(st, seq![a], seq![eq_tok()]);
            lemma_pfold_one(st, a);
            let s1 = pstep(st, a)->0;
            lemma_pfold_one(s1, eq_tok());
            let s2 = pstep(s1, eq_tok())->0;
            assert(s2.stack == st.stack && s2.pending == Seq::<Seq<char>>::empty()
                && s2.equal_seen == true && s2.last == a);
            lemma_pfold_one(s2, open_tok());
            let s3 = pstep(s2, open_tok())->0;
            let opened = leaf_model(a, s2.next_id);
            assert(s3.stack == st.stack.push(opened) && s3.pending == Seq::<Seq<char>>::empty()
                && s3.equal_seen == false);
            assert(decreases_to!(cs => cs[0]));
            assert(decreases_to!(cs[0] => cs[0].children));
            lemma_pfold_ser_children(cs[0].children, s3);
            let s4 = pfold(s3, ser_toks_children(cs[0].children))->0;
            let k0 = nonleaf_prefix_len(cs[0].children);
            lemma_nonleaf_prefix(cs[0].children);
            lemma_pfold_one(s4, close_tok());
            let m = materialize_pending(s4);
            assert(m.stack.len() == s4.stack.len());
            assert(s4.stack.len() == st.stack.len() + 1);
            assert(m.stack.len() > 1);
            let s5 = pstep(s4, close_tok())->0;
            let inner_done = m.stack.last();
            assert(inner_done.name == a && inner_done.id == opened.id);
            assert(same_shape(inner_done, cs[0])) by {
                let t4 = s4.stack.last();
                assert(inner_done.children == t4.children + leaf_seq(s4.pending, s4.next_id));
                assert(t4.children.len() == k0);
                assert(s4.pending.len() == cs[0].children.len() - k0);
                assert(inner_done.children.len() == cs[0].children.len());
                assert forall|j: int| 0 <= j < cs[0].children.len() implies same_shape(
                    #[trigger] inner_done.children[j],
                    cs[0].children[j],
                ) by {
                    if j < k0 {
                        assert(inner_done.children[j] == t4.children[j]);
                        assert(same_shape(
                            s4.stack.last().children[s3.stack.last().children.len() + j],
                            cs[0].children[j],
                        ));
                        assert(t4.children[j] == s4.stack.last().children[
                            s3.stack.last().children.len() + j]);
                    } else {
                        assert(inner_done.children[j] == leaf_seq(s4.pending, s4.next_id)[j - k0]);
                        assert(s4.pending[j - k0] == names_of(
                            cs[0].children.subrange(k0 as int, cs[0].children.len() as int),
                        )[j - k0]);
                        assert(s4.pending[j - k0] == cs[0].children[j].name);
                        assert(cs[0].children[j].children.len() == 0);
                        assert(same_shape(inner_done.children[j], cs[0].children[j]));
                    }
                }
            }
            let parent = m.stack[m.stack.len() - 2];
            assert(parent == top);
            assert(s5.stack == m.stack.subrange(0, m.stack.len() - 1).update(
                m.stack.len() - 2,
                NodeModel {
                    name: parent.name,
                    id: parent.id,
                    children: parent.children.push(inner_done),
                },
            ));
            assert(s5.stack.len() == st.stack.len());
            assert(s5.pending == Seq::<Seq<char>>::empty());
            assert(s5.equal_seen == false);
            assert(forall|j: int| 0 <= j < st.stack.len() - 1 ==> s5.stack[j] == st.stack[j]);
            assert(pfold(st, ser_toks_node(cs[0])) == Some(s5));
            s_after = s5;
            assert(s_after.stack.last().children.len() == top.children.len() + 1);
            assert(same_shape(s_after.stack.last().children[top.children.len() as int], cs[0]));
        }
        assert(forall|j: int| 0 <= j < cs.len() - 1 ==> rest[j] == cs[j + 1]);
        assert(forall|i: int| 0 <= i < rest.len() ==> round_trip_wf(#[trigger] rest[i]));
        lemma_pfold_ser_children(rest, s_after);
        let st2 = pfold(s_after, ser_toks_children(rest))->0;
        assert(pfold(st, ser_toks_children(cs)) == Some(st2));
        let krest = nonleaf_prefix_len(rest);
        assert(k == 1 + krest);
        let top_a = s_after.stack.last();
        assert(st2.stack.last().children.len() == top.children.len() + k);
        assert forall|j: int| 0 <= j < k implies same_shape(
            #[trigger] st2.stack.last().children[top.children.len() + j],
            cs[j],
        ) by {
            if j == 0 {
                let ci = top.children.len() as int;
                assert(st2.stack.last().children[ci] == top_a.children[ci]);
            } else {
                assert(st2.stack.last().children[top_a.children.len() + (j - 1)] ==
                    st2.stack.last().children[top.children.len() + j]);
                assert(same_shape(
                    st2.stack.last().children[top_a.children.len() + (j - 1)],
                    rest[j - 1],
                ));
                assert(rest[j - 1] == cs[j]);
            }
        }
        assert(st2.pending =~= names_of(cs.subrange(k as int, cs.len() as int))) by {
            assert(st2.pending == names_of(rest.subrange(krest as int, rest.len() as int)));
            assert(rest.subrange(krest as int, rest.len() as int) =~= cs.subrange(
                k as int,
                cs.len() as int,
            ));
        }
        assert(st2.stack.len() == st.stack.len());
        assert forall|j: int| 0 <= j < st.stack.len() - 1 implies st2.stack[j] == st.stack[j] by {
            assert(st2.stack[j] == s_after.stack[j]);
        }
        assert(st2.stack.last().name == top.name);
        assert(st2.stack.last().id == top.id);
        assert forall|j: int| 0 <= j < top.children.len() implies st2.stack.last().children[j]
            == top.children[j] by {
            assert(st2.stack.last().children[j] == top_a.children[j]);
        }
        assert(st2.equal_seen == false);
    }
}

/// The round-trip law: parsing the serialization of a well-formed document
/// succeeds and rebuilds a root of exactly the same shape, node for node
/// and name for name, at every depth.
pub proof fn theorem_parse_serialize_round_trip(t: TreeModel)
    requires
        round_trip_wf_root(t.root),
    ensures
        parse_result(ser_node(t.root, 0)) matches Some(out) && same_shape(out.0, t.root),
{
    lemma_tokens_of_serialized_root(t.root);
    let toks = ser_toks_children(t.root.children);
    let st0 = crate::parser::parse_init();
    lemma_pfold_ser_children(t.root.children, st0);
    let st2 = pfold(st0, toks)->0;
    let k = nonleaf_prefix_len(t.root.children);
    lemma_nonleaf_prefix(t.root.children);
    let m = materialize_pending(st2);
    assert(m.stack.len() == 1);
    let done = m.stack.last();
    assert(collapse_stack(m.stack) == m.stack[0]);
    assert(done == m.stack[0]);
    assert(done.name == root_name());
    let top2 = st2.stack.last();
    assert(done.children == top2.children + leaf_seq(st2.pending, st2.next_id));
    assert(same_shape(done, t.root)) by {
        assert(done.children.len() == t.root.children.len());
        assert forall|j: int| 0 <= j < t.root.children.len() implies same_shape(
            #[trigger] done.children[j],
            t.root.children[j],
        ) by {
            if j < k {
                assert(done.children[j] == top2.children[j]);
                assert(same_shape(
                    st2.stack.last().children[st0.stack.last().children.len() + j],
                    t.root.children[j],
                ));
                assert(top2.children[j] == st2.stack.last().children[
                    st0.stack.last().children.len() + j]);
            } else {
                assert(done.children[j] == leaf_seq(st2.pending, st2.next_id)[j - k]);
                assert(st2.pending[j - k] == names_of(
                    t.root.children.subrange(k as int, t.root.children.len() as int),
                )[j - k]);
                assert(st2.pending[j - k] == t.root.children[j].name);
                assert(t.root.children[j].children.len() == 0);
            }
        }
    }
    assert(parse_toks(toks) == Some((collapse_stack(m.stack), m.next_id)));
}

} // verus!
