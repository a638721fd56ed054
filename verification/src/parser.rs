//! The parser: a single left-to-right scan that turns raw text into a tree.
//!
//! Tokenization and parsing are both specified as character- and token-level
//! state machines; the executable code is verified to follow them exactly.

use vstd::prelude::*;
use vstd::string::*;

use crate::node::{Node, NodeModel, node_model};
use crate::text::{is_wspace, is_space, str_is_char};
use crate::tree::{Tree, TreeError};

verus! {

// ---------------------------------------------------------------------------
// Tokenization: whitespace-separated tokens, `#` truncating the line.
// ---------------------------------------------------------------------------
/// Tokenizer state: whether the rest of the line is a comment, the token
/// being accumulated, and the tokens already produced.
#[verifier::ext_equal]
pub ghost struct TokState {
    pub in_comment: bool,
    pub cur: Seq<char>,
    pub toks: Seq<Seq<char>>,
}

pub open spec fn tok_init() -> TokState {
    TokState { in_comment: false, cur: Seq::empty(), toks: Seq::empty() }
}

/// Close the token being accumulated, if any.
pub open spec fn tok_flush(st: TokState) -> Seq<Seq<char>> {
    if st.cur.len() > 0 {
        st.toks.push(st.cur)
    } else {
        st.toks
    }
}

/// One character of tokenization. A `#` anywhere starts a comment that runs
/// to the end of the line; whitespace separates tokens.
pub open spec fn tok_step(st: TokState, c: char) -> TokState {
    if st.in_comment {
        if c == '\n' {
            TokState { in_comment: false, cur: Seq::empty(), toks: st.toks }
        } else {
            st
        }
    } else if c == '#' {
        TokState { in_comment: true, cur: Seq::empty(), toks: tok_flush(st) }
    } else if is_wspace(c) {
        TokState { in_comment: false, cur: Seq::empty(), toks: tok_flush(st) }
    } else {
        TokState { in_comment: st.in_comment, cur: st.cur.push(c), toks: st.toks }
    }
}

pub open spec fn tok_fold(st: TokState, s: Seq<char>) -> TokState
    decreases s.len(),
{
    if s.len() == 0 {
        st
    } else {
        tok_fold(tok_step(st, s[0]), s.drop_first())
    }
}

/// The tokens of a text, comments removed.
pub open spec fn tokens_of(s: Seq<char>) -> Seq<Seq<char>> {
    tok_flush(tok_fold(tok_init(), s))
}

pub proof fn lemma_tok_fold_snoc(st: TokState, s: Seq<char>, c: char)
    ensures
        tok_fold(st, s.push(c)) == tok_step(tok_fold(st, s), c),
    decreases s.len(),
{
    let p = s.push(c);
    assert(p.len() == s.len() + 1);
    if s.len() == 0 {
        assert(p[0] == c);
        assert(p.drop_first() =~= Seq::<char>::empty());
        assert(tok_fold(st, p) == tok_fold(tok_step(st, c), p.drop_first()));
        assert(tok_fold(tok_step(st, c), p.drop_first()) == tok_step(st, c));
        assert(tok_fold(st, s) == st);
    } else {
        assert(p[0] == s[0]);
        assert(p.drop_first() =~= s.drop_first().push(c));
        assert(tok_fold(st, p) == tok_fold(tok_step(st, s[0]), s.drop_first().push(c)));
        lemma_tok_fold_snoc(tok_step(st, s[0]), s.drop_first(), c);
        assert(tok_fold(st, s) == tok_fold(tok_step(st, s[0]), s.drop_first()));
    }
}

pub proof fn lemma_tok_fold_concat(st: TokState, a: Seq<char>, b: Seq<char>)
    ensures
        tok_fold(st, a + b) == tok_fold(tok_fold(st, a), b),
    decreases a.len(),
{
    if a.len() == 0 {
        assert(a + b =~= b);
    } else {
        assert((a + b)[0] == a[0]);
        assert((a + b).drop_first() =~= a.drop_first() + b);
        lemma_tok_fold_concat(tok_step(st, a[0]), a.drop_first(), b);
    }
}

/// A text cannot hold more tokens than characters.
proof fn lemma_tok_count(st: TokState, s: Seq<char>)
    ensures
        tok_fold(st, s).toks.len() + (if tok_fold(st, s).cur.len() > 0 {
            1int
        } else {
            0int
        }) <= st.toks.len() + (if st.cur.len() > 0 {
            1int
        } else {
            0int
        }) + s.len(),
    decreases s.len(),
{
    if s.len() > 0 {
        lemma_tok_count(tok_step(st, s[0]), s.drop_first());
    }
}

/// Split a text into its tokens: maximal runs of non-whitespace characters,
/// with `#` cutting everything to the end of its line.
pub fn tokenize(text: &str) -> (toks: Vec<String>)
    ensures
        toks@.len() == tokens_of(text@).len(),
        forall|i: int| 0 <= i < toks@.len() ==> toks@[i]@ == tokens_of(text@)[i],
        toks@.len() <= text@.len(),
{
    let n = text.unicode_len();
    let mut toks: Vec<String> = Vec::new();
    let mut in_comment = false;
    let mut has_cur = false;
    let mut tok_start: usize = 0;
    let mut i: usize = 0;
    while i < n
        invariant
            n == text@.len(),
            n <= usize::MAX,
            i <= n,
            ({
                let st = tok_fold(tok_init(), text@.subrange(0, i as int));
                &&& st.in_comment == in_comment
                &&& !(in_comment && has_cur)
                &&& if has_cur {
                    tok_start <= i && st.cur == text@.subrange(tok_start as int, i as int)
                        && st.cur.len() > 0
                } else {
                    st.cur.len() == 0
                }
                &&& st.toks.len() == toks@.len()
                &&& forall|j: int| 0 <= j < toks@.len() ==> toks@[j]@ == st.toks[j]
            }),
        decreases n - i,
    {
        let ghost st = tok_fold(tok_init(), text@.subrange(0, i as int));
        proof {
            assert(text@.subrange(0, i + 1) =~= text@.subrange(0, i as int).push(text@[i as int]));
            lemma_tok_fold_snoc(tok_init(), text@.subrange(0, i as int), text@[i as int]);
        }
        let c = text.get_char(i);
        if in_comment {
            if c == '\n' {
                in_comment = false;
            }
        } else if c == '#' || is_space(c) {
            if has_cur {
                let tok = String::from_str(text.substring_char(tok_start, i));
                toks.push(tok);
                has_cur = false;
            }
            if c == '#' {
                in_comment = true;
            }
        } else {
            if !has_cur {
                tok_start = i;
                has_cur = true;
                proof {
                    assert(st.cur =~= text@.subrange(tok_start as int, i as int));
                }
            }
            proof {
                assert(text@.subrange(tok_start as int, i + 1) =~= text@.subrange(
                    tok_start as int,
                    i as int,
                ).push(text@[i as int]));
            }
        }
        i += 1;
    }
    if has_cur {
        let tok = String::from_str(text.substring_char(tok_start, n));
        toks.push(tok);
    }
    proof {
        assert(text@.subrange(0, n as int) =~= text@);
        lemma_tok_count(tok_init(), text@);
    }
    toks
}

// ---------------------------------------------------------------------------
// The parse machine: one state transition per token.
// ---------------------------------------------------------------------------
pub open spec fn eq_tok() -> Seq<char> {
    seq!['=']
}

pub open spec fn open_tok() -> Seq<char> {
    seq!['{']
}

pub open spec fn close_tok() -> Seq<char> {
    seq!['}']
}

/// The name of every synthetic root the parser creates.
pub open spec fn root_name() -> Seq<char> {
    seq!['r', 'o', 'o', 't']
}

pub open spec fn leaf_model(name: Seq<char>, id: nat) -> NodeModel {
    NodeModel { name, id, children: Seq::empty() }
}

/// The models of a vector of strings, in order.
pub open spec fn strs_views(p: Seq<String>) -> Seq<Seq<char>> {
    Seq::new(p.len(), |i: int| p[i]@)
}

/// Fresh leaf nodes for the given names, with identities `base`, `base+1`, ...
pub open spec fn leaf_seq(names: Seq<Seq<char>>, base: nat) -> Seq<NodeModel> {
    Seq::new(names.len(), |i: int| leaf_model(names[i], (base + i) as nat))
}

/// Parser state between tokens: the stack of open scopes (the root at the
/// bottom, the scope being filled on top), the bare tokens accumulated since
/// the last boundary, whether an `=` was just seen, the most recent ordinary
/// token, and the next free identity.
#[verifier::ext_equal]
pub ghost struct ParseState {
    pub stack: Seq<NodeModel>,
    pub pending: Seq<Seq<char>>,
    pub equal_seen: bool,
    pub last: Seq<char>,
    pub next_id: nat,
}

pub open spec fn parse_init() -> ParseState {
    ParseState {
        stack: seq![leaf_model(root_name(), 0)],
        pending: Seq::empty(),
        equal_seen: false,
        last: Seq::empty(),
        next_id: 1,
    }
}

/// Turn the accumulated bare tokens into leaf children of the current scope.
pub open spec fn materialize_pending(st: ParseState) -> ParseState {
    let k = st.stack.len() as int;
    let top = st.stack[k - 1];
    let top2 = NodeModel {
        name: top.name,
        id: top.id,
        children: top.children + leaf_seq(st.pending, st.next_id),
    };
    ParseState {
        stack: st.stack.update(k - 1, top2),
        pending: Seq::empty(),
        equal_seen: st.equal_seen,
        last: st.last,
        next_id: st.next_id + st.pending.len(),
    }
}

/// One token of parsing. `=` marks the previous token as a key; `{` opens a
/// scope named by that key (or, without `=`, keeps filling the current one);
/// `}` commits the accumulated bare tokens as leaves and returns to the
/// enclosing scope, failing on an unmatched close; any other token either
/// completes a `key = value` pair or joins the pending leaf run.
pub open spec fn pstep(st: ParseState, t: Seq<char>) -> Option<ParseState> {
    if t == eq_tok() {
        Some(
            ParseState {
                stack: st.stack,
                pending: Seq::empty(),
                equal_seen: true,
                last: st.last,
                next_id: st.next_id,
            },
        )
    } else if t == open_tok() {
        if st.equal_seen {
            Some(
                ParseState {
                    stack: st.stack.push(leaf_model(st.last, st.next_id)),
                    pending: Seq::empty(),
                    equal_seen: false,
                    last: st.last,
                    next_id: st.next_id + 1,
                },
            )
        } else {
            Some(
                ParseState {
                    stack: st.stack,
                    pending: Seq::empty(),
                    equal_seen: false,
                    last: st.last,
                    next_id: st.next_id,
                },
            )
        }
    } else if t == close_tok() {
        let m = materialize_pending(st);
        if m.stack.len() <= 1 {
            None
        } else {
            let k = m.stack.len() as int;
            let top = m.stack[k - 1];
            let parent = m.stack[k - 2];
            let parent2 = NodeModel {
                name: parent.name,
                id: parent.id,
                children: parent.children.push(top),
            };
            Some(
                ParseState {
                    stack: m.stack.subrange(0, k - 1).update(k - 2, parent2),
                    pending: Seq::empty(),
                    equal_seen: m.equal_seen,
                    last: m.last,
                    next_id: m.next_id,
                },
            )
        }
    } else if st.equal_seen {
        let key = NodeModel {
            name: st.last,
            id: st.next_id,
            children: seq![leaf_model(t, (st.next_id + 1) as nat)],
        };
        let k = st.stack.len() as int;
        let top = st.stack[k - 1];
        let top2 = NodeModel { name: top.name, id: top.id, children: top.children.push(key) };
        Some(
            ParseState {
                stack: st.stack.update(k - 1, top2),
                pending: st.pending,
                equal_seen: false,
                last: t,
                next_id: st.next_id + 2,
            },
        )
    } else {
        Some(
            ParseState {
                stack: st.stack,
                pending: st.pending.push(t),
                equal_seen: false,
                last: t,
                next_id: st.next_id,
            },
        )
    }
}

pub open spec fn pfold(st: ParseState, toks: Seq<Seq<char>>) -> Option<ParseState>
    decreases toks.len(),
{
    if toks.len() == 0 {
        Some(st)
    } else {
        match pstep(st, toks[0]) {
            None => None,
            Some(m) => pfold(m, toks.drop_first()),
        }
    }
}

pub proof fn lemma_pfold_snoc(st: ParseState, s: Seq<Seq<char>>, t: Seq<char>)
    ensures
        pfold(st, s.push(t)) == match pfold(st, s) {
            None => None,
            Some(m) => pstep(m, t),
        },
    decreases s.len(),
{
    let p = s.push(t);
    assert(p.len() == s.len() + 1);
    if s.len() == 0 {
        assert(p[0] == t);
        assert(p.drop_first() =~= Seq::<Seq<char>>::empty());
        assert(pfold(st, s) == Some(st));
        match pstep(st, t) {
            None => {
                assert(pfold(st, p) is None);
            },
            Some(m) => {
                assert(pfold(st, p) == pfold(m, p.drop_first()));
                assert(pfold(m, p.drop_first()) == Some(m));
            },
        }
    } else {
        assert(p[0] == s[0]);
        assert(p.drop_first() =~= s.drop_first().push(t));
        match pstep(st, s[0]) {
            None => {
                assert(pfold(st, p) is None);
                assert(pfold(st, s) is None);
            },
            Some(m) => {
                lemma_pfold_snoc(m, s.drop_first(), t);
            },
        }
    }
}

pub proof fn lemma_pfold_concat(st: ParseState, a: Seq<Seq<char>>, b: Seq<Seq<char>>)
    ensures
        pfold(st, a + b) == match pfold(st, a) {
            None => None,
            Some(m) => pfold(m, b),
        },
    decreases a.len(),
{
    if a.len() == 0 {
        assert(a + b =~= b);
    } else {
        assert((a + b)[0] == a[0]);
        assert((a + b).drop_first() =~= a.drop_first() + b);
        match pstep(st, a[0]) {
            None => {
                assert(pfold(st, a + b) is None);
            },
            Some(m) => {
                lemma_pfold_concat(m, a.drop_first(), b);
            },
        }
    }
}

/// Fold the stack of still-open scopes into the root: every unclosed scope
/// becomes the last child of its parent.
pub open spec fn collapse_stack(stack: Seq<NodeModel>) -> NodeModel
    decreases stack.len(),
{
    if stack.len() <= 1 {
        stack[0]
    } else {
        let k = stack.len() as int;
        let top = stack[k - 1];
        let parent = stack[k - 2];
        let parent2 = NodeModel {
            name: parent.name,
            id: parent.id,
            children: parent.children.push(top),
        };
        collapse_stack(stack.subrange(0, k - 1).update(k - 2, parent2))
    }
}

/// What parsing a token stream yields: the finished root and the final id
/// counter, or nothing for a malformed stream.
pub open spec fn parse_toks(toks: Seq<Seq<char>>) -> Option<(NodeModel, nat)> {
    match pfold(parse_init(), toks) {
        None => None,
        Some(st) => {
            let m = materialize_pending(st);
            Some((collapse_stack(m.stack), m.next_id))
        },
    }
}

/// What parsing a text yields.
pub open spec fn parse_result(text: Seq<char>) -> Option<(NodeModel, nat)> {
    parse_toks(tokens_of(text))
}

// ---------------------------------------------------------------------------
// The executable parser.
// ---------------------------------------------------------------------------
/// The models of a stack of nodes, bottom first.
pub open spec fn stack_views(s: Seq<Node>) -> Seq<NodeModel> {
    Seq::new(s.len(), |i: int| s[i]@)
}

/// Append the pending bare tokens to `top` as fresh leaves, numbered from
/// `next_id`; returns the next free identity.
fn flush_leaves(top: &mut Node, pending: &Vec<String>, next_id: usize) -> (r: usize)
    requires
        next_id + pending@.len() <= usize::MAX,
    ensures
        final(top)@.name == old(top)@.name,
        final(top)@.id == old(top)@.id,
        final(top)@.children == old(top)@.children + leaf_seq(strs_views(pending@), next_id as nat),
        r == next_id + pending@.len(),
{
    let mut j: usize = 0;
    while j < pending.len()
        invariant
            next_id + pending@.len() <= usize::MAX,
            j <= pending@.len(),
            top@.name == old(top)@.name,
            top@.id == old(top)@.id,
            top@.children.len() == old(top)@.children.len() + j,
            forall|k: int|
                0 <= k < old(top)@.children.len() ==> top@.children[k] == old(top)@.children[k],
            forall|k: int|
                0 <= k < j ==> top@.children[old(top)@.children.len() + k] == leaf_model(
                    pending@[k]@,
                    (next_id + k) as nat,
                ),
        decreases pending@.len() - j,
    {
        let leaf = Node::new(pending[j].clone(), next_id + j);
        proof {
            assert(leaf@.children =~= Seq::<NodeModel>::empty());
            assert(leaf@ =~= leaf_model(pending@[j as int]@, (next_id + j) as nat));
        }
        top.add_child(leaf);
        j += 1;
    }
    proof {
        assert(top@.children =~= old(top)@.children + leaf_seq(
            strs_views(pending@),
            next_id as nat,
        ));
    }
    next_id + pending.len()
}

/// A parser in its start state: a bare synthetic root and no identities
/// handed out yet.
pub struct Parser {
    pub(crate) root: Node,
    pub(crate) unique_id: usize,
}

impl Parser {
    /// The parser is still in its start state.
    pub closed spec fn fresh(&self) -> bool {
        node_model(self.root) == leaf_model(root_name(), 0) && self.unique_id == 0
    }

    pub fn new() -> (p: Parser)
        ensures
            p.fresh(),
    {
        let root = Node::new(String::from_str("root"), 0);
        proof {
            reveal_strlit("root");
            assert("root"@ =~= root_name());
            assert(root@.name == root_name());
            assert(root@.id == 0);
            assert(root@.children =~= Seq::<NodeModel>::empty());
            assert(root@ =~= leaf_model(root_name(), 0));
        }
        Parser { root, unique_id: 0 }
    }

    /// Parse a whole document. Returns the finished tree, whose `highest_id`
    /// exceeds every identity the parser handed out, or `MalformedInput` for
    /// a structurally impossible token sequence (an unmatched `}`).
    pub fn parse(self, text: String) -> (r: Result<Tree, TreeError>)
        requires
            self.fresh(),
            text@.len() <= usize::MAX / 4,
        ensures
            match parse_result(text@) {
                Some(out) => r matches Ok(t) && t@.root == out.0 && t@.highest_id == out.1,
                None => r matches Err(e) && e == TreeError::MalformedInput,
            },
    {
        let toks = tokenize(text.as_str());
        let ghost tv = tokens_of(text@);
        let mut stack: Vec<Node> = Vec::new();
        stack.push(self.root);
        let mut pending: Vec<String> = Vec::new();
        let mut equal_seen = false;
        let mut last: String = String::new();
        let mut next_id: usize = 1;
        let mut ti: usize = 0;
        proof {
            assert(tv.subrange(0, 0) =~= Seq::<Seq<char>>::empty());
            assert(stack_views(stack@) =~= parse_init().stack);
            assert(strs_views(pending@) =~= parse_init().pending);
        }
        while ti < toks.len()
            invariant
                tv == tokens_of(text@),
                toks@.len() == tv.len(),
                forall|i: int| 0 <= i < toks@.len() ==> toks@[i]@ == tv[i],
                tv.len() <= usize::MAX / 4,
                ti <= toks@.len(),
                stack@.len() >= 1,
                next_id + pending@.len() <= 1 + 2 * ti,
                pfold(parse_init(), tv.subrange(0, ti as int)) == Some(
                    ParseState {
                        stack: stack_views(stack@),
                        pending: strs_views(pending@),
                        equal_seen: equal_seen,
                        last: last@,
                        next_id: next_id as nat,
                    },
                ),
            decreases toks@.len() - ti,
        {
            let ghost st = ParseState {
                stack: stack_views(stack@),
                pending: strs_views(pending@),
                equal_seen: equal_seen,
                last: last@,
                next_id: next_id as nat,
            };
            proof {
                assert(tv.subrange(0, ti + 1) =~= tv.subrange(0, ti as int).push(tv[ti as int]));
                lemma_pfold_snoc(parse_init(), tv.subrange(0, ti as int), tv[ti as int]);
            }
            let tok = &toks[ti];
            let ghost t = tv[ti as int];
            if str_is_char(tok.as_str(), '=') {
                equal_seen = true;
                pending = Vec::new();
                proof {
                    assert(t == eq_tok());
                    assert(strs_views(pending@) =~= Seq::<Seq<char>>::empty());
                    assert(ParseState {
                        stack: stack_views(stack@),
                        pending: strs_views(pending@),
                        equal_seen: equal_seen,
                        last: last@,
                        next_id: next_id as nat,
                    } =~~= pstep(st, t)->0);
                }
            } else if str_is_char(tok.as_str(), '{') {
                pending = Vec::new();
                if equal_seen {
                    let node = Node::new(last.clone(), next_id);
                    proof {
                        assert(node@.children =~= Seq::<NodeModel>::empty());
                        assert(node@ =~= leaf_model(st.last, st.next_id));
                    }
                    next_id = next_id + 1;
                    stack.push(node);
                }
                equal_seen = false;
                proof {
                    assert(t == open_tok());
                    assert(t != eq_tok());
                    assert(strs_views(pending@) =~= Seq::<Seq<char>>::empty());
                    assert(stack_views(stack@) =~= pstep(st, t)->0.stack);
                    assert(ParseState {
                        stack: stack_views(stack@),
                        pending: strs_views(pending@),
                        equal_seen: equal_seen,
                        last: last@,
                        next_id: next_id as nat,
                    } =~~= pstep(st, t)->0);
                }
            } else if str_is_char(tok.as_str(), '}') {
                proof {
                    assert(t == close_tok());
                    assert(t != eq_tok());
                    assert(t != open_tok());
                }
                let mut top = stack.pop().unwrap();
                next_id = flush_leaves(&mut top, &pending, next_id);
                pending = Vec::new();
                let ghost m = materialize_pending(st);
                proof {
                    assert(top@ =~= m.stack[m.stack.len() - 1]);
                }
                if stack.is_empty() {
                    proof {
                        assert(m.stack.len() <= 1);
                        assert(pstep(st, t) is None);
                        assert(tv =~= tv.subrange(0, ti as int) + tv.subrange(
                            ti as int,
                            tv.len() as int,
                        ));
                        lemma_pfold_concat(
                            parse_init(),
                            tv.subrange(0, ti as int),
                            tv.subrange(ti as int, tv.len() as int),
                        );
                        assert(tv.subrange(ti as int, tv.len() as int)[0] == t);
                        assert(pfold(st, tv.subrange(ti as int, tv.len() as int)) is None);
                        assert(pfold(parse_init(), tv) is None);
                        assert(parse_toks(tv) is None);
                        assert(tv == tokens_of(text@));
                        assert(parse_result(text@) is None);
                    }
                    return Err(TreeError::MalformedInput);
                }
                let mut parent = stack.pop().unwrap();
                parent.add_child(top);
                stack.push(parent);
                proof {
                    assert(m.stack.len() > 1);
                    assert(stack_views(stack@) =~= pstep(st, t)->0.stack);
                    assert(strs_views(pending@) =~= Seq::<Seq<char>>::empty());
                    assert(ParseState {
                        stack: stack_views(stack@),
                        pending: strs_views(pending@),
                        equal_seen: equal_seen,
                        last: last@,
                        next_id: next_id as nat,
                    } =~~= pstep(st, t)->0);
                }
            } else {
                proof {
                    assert(t != eq_tok());
                    assert(t != open_tok());
                    assert(t != close_tok());
                    assert(t == tok@);
                }
                if equal_seen {
                    let mut key = Node::new(last.clone(), next_id);
                    let leaf = Node::new(tok.clone(), next_id + 1);
                    proof {
                        assert(key@.children =~= Seq::<NodeModel>::empty());
                        assert(leaf@.children =~= Seq::<NodeModel>::empty());
                        assert(leaf@ =~= leaf_model(t, (st.next_id + 1) as nat));
                    }
                    key.add_child(leaf);
                    let mut top = stack.pop().unwrap();
                    top.add_child(key);
                    stack.push(top);
                    next_id = next_id + 2;
                    proof {
                        assert(key@.children =~= seq![
                            leaf_model(t, (st.next_id + 1) as nat),
                        ]);
                        assert(stack_views(stack@) =~= pstep(st, t)->0.stack);
                    }
                } else {
                    pending.push(tok.clone());
                    proof {
                        assert(strs_views(pending@) =~= st.pending.push(t));
                    }
                }
                equal_seen = false;
                last = tok.clone();
                proof {
                    assert(ParseState {
                        stack: stack_views(stack@),
                        pending: strs_views(pending@),
                        equal_seen: equal_seen,
                        last: last@,
                        next_id: next_id as nat,
                    } =~~= pstep(st, t)->0);
                }
            }
            ti += 1;
        }
        let ghost st = ParseState {
            stack: stack_views(stack@),
            pending: strs_views(pending@),
            equal_seen: equal_seen,
            last: last@,
            next_id: next_id as nat,
        };
        proof {
            assert(tv.subrange(0, tv.len() as int) =~= tv);
        }
        let mut top = stack.pop().unwrap();
        next_id = flush_leaves(&mut top, &pending, next_id);
        stack.push(top);
        let ghost m = materialize_pending(st);
        proof {
            assert(stack_views(stack@) =~= m.stack);
        }
        while stack.len() > 1
            invariant
                stack@.len() >= 1,
                collapse_stack(stack_views(stack@)) == collapse_stack(m.stack),
            decreases stack@.len(),
        {
            let ghost pre = stack_views(stack@);
            let top2 = stack.pop().unwrap();
            let mut parent = stack.pop().unwrap();
            parent.add_child(top2);
            stack.push(parent);
            proof {
                let k = pre.len() as int;
                let p2 = NodeModel {
                    name: pre[k - 2].name,
                    id: pre[k - 2].id,
                    children: pre[k - 2].children.push(pre[k - 1]),
                };
                assert(stack_views(stack@) =~= pre.subrange(0, k - 1).update(k - 2, p2));
            }
        }
        let root = stack.pop().unwrap();
        proof {
            assert(stack_views(stack@).len() == 0);
            assert(root@ == collapse_stack(m.stack));
        }
        Ok(Tree::new(root, next_id))
    }
}

} // verus!

