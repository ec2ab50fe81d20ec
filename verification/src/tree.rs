//! Reconstructed tree nodes.
//!
//! A [`NodeTree`] is one element of the tree the second pass rebuilds
//! from the token stream: a tag name, the 1-based stack depth it was
//! opened at, its ordered children, an attribute map where the last
//! write for a key wins, and at most one text value.

use vstd::prelude::*;

use crate::scan::Scanner;
use crate::token::token_models;
use crate::token::Token;
use crate::token::TokenModel;
use crate::token::Tokenizer;

verus! {

broadcast use vstd::std_specs::vec::group_vec_axioms;

/// The mathematical model of a node: plain sequences, a map for the
/// attributes, and the children modelled recursively.
#[verifier::ext_equal]
pub ghost struct NodeModel {
    pub tag: Seq<char>,
    pub depth: int,
    pub children: Seq<NodeModel>,
    pub attributes: Map<Seq<char>, Seq<char>>,
    pub text: Seq<char>,
}

/// The attribute map an association list denotes: entries are inserted
/// left to right, so a later entry for the same key wins.
pub open spec fn attrs_map(s: Seq<(String, String)>) -> Map<Seq<char>, Seq<char>>
    decreases s.len(),
{
    if s.len() == 0 {
        Map::empty()
    } else {
        attrs_map(s.drop_last()).insert(s.last().0@, s.last().1@)
    }
}

/// The characters of a raw attribute slice before its first `=`: the
/// attribute key. The whole slice when it holds no `=`.
pub open spec fn before_eq(s: Seq<char>) -> Seq<char>
    decreases s.len(),
{
    if s.len() == 0 {
        Seq::empty()
    } else if s[0] == '=' {
        Seq::empty()
    } else {
        seq![s[0]] + before_eq(s.drop_first())
    }
}

/// The characters after the first `=`, or empty when there is none.
pub open spec fn after_eq(s: Seq<char>) -> Seq<char>
    decreases s.len(),
{
    if s.len() == 0 {
        Seq::empty()
    } else if s[0] == '=' {
        s.drop_first()
    } else {
        after_eq(s.drop_first())
    }
}

/// Whether the slice holds an `=` at all.
pub open spec fn has_eq(s: Seq<char>) -> bool
    decreases s.len(),
{
    if s.len() == 0 {
        false
    } else if s[0] == '=' {
        true
    } else {
        has_eq(s.drop_first())
    }
}

/// The key of a raw `key=value` attribute slice.
pub open spec fn attr_key(s: Seq<char>) -> Seq<char> {
    before_eq(s)
}

/// The value of a raw `key=value` attribute slice: what stands between
/// the first and the second `=`. Anything after a second unescaped `=`
/// is dropped, and a slice with no `=` has an empty value.
pub open spec fn attr_val(s: Seq<char>) -> Seq<char> {
    if has_eq(s) {
        before_eq(after_eq(s))
    } else {
        Seq::empty()
    }
}

/// The tag of the synthetic wrapper node the depth-merge repair rule
/// introduces.
pub open spec fn wrapper_tag() -> Seq<char> {
    "div"@
}

/// An empty node model: the accumulator the tree builder starts from,
/// and the shape of a freshly opened node up to its tag and depth.
pub open spec fn empty_node(tag: Seq<char>, depth: int) -> NodeModel {
    NodeModel {
        tag: tag,
        depth: depth,
        children: Seq::empty(),
        attributes: Map::empty(),
        text: Seq::empty(),
    }
}

/// The full state of the tree builder: the stack of open nodes, the
/// accumulating root, and the diagnostics recorded so far (the values
/// of closing tokens that had no open tag).
#[verifier::ext_equal]
pub ghost struct LexState {
    pub trees: Seq<NodeModel>,
    pub root: NodeModel,
    pub diags: Seq<Seq<char>>,
}

/// The state the tree builder starts in: no open nodes, an empty root
/// at depth 0, no diagnostics.
pub open spec fn lex_init() -> LexState {
    LexState { trees: Seq::empty(), root: empty_node(Seq::empty(), 0), diags: Seq::empty() }
}

/// One token's effect on the tree builder's state.
///
/// A `Tag` opens a node at the current stack depth plus one. An
/// `EndTag` with no open node is discarded with a diagnostic; otherwise
/// it closes the top node and merges it into the root: a root at depth
/// 0 first takes the closed node's depth minus one; a closed node one
/// level below the root's depth becomes a new child; anything else
/// triggers the structural repair, which moves the closed node's tag,
/// children and attributes onto the root and wraps that root in a
/// synthetic container one level below the closed node. An `Attribute`
/// or `Text` token writes into the top open node (the stream is
/// malformed when there is none: such a token leaves the state
/// unchanged here, and the executable builder refuses it by
/// precondition). A comment token changes nothing.
pub open spec fn lex_step(st: LexState, t: TokenModel) -> LexState {
    match t.kind {
        Tokenizer::Tag => LexState {
            trees: st.trees.push(empty_node(t.value, st.trees.len() as int + 1)),
            ..st
        },
        Tokenizer::EndTag => {
            if st.trees.len() == 0 {
                LexState { diags: st.diags.push(t.value), ..st }
            } else {
                let tree = st.trees.last();
                let trees2 = st.trees.drop_last();
                let depth = if st.root.depth == 0 {
                    tree.depth - 1
                } else {
                    st.root.depth
                };
                if depth == tree.depth - 1 {
                    LexState {
                        trees: trees2,
                        root: NodeModel {
                            depth: depth,
                            children: st.root.children.push(tree),
                            ..st.root
                        },
                        ..st
                    }
                } else {
                    let merged = NodeModel {
                        tag: tree.tag,
                        depth: depth,
                        children: st.root.children + tree.children,
                        attributes: tree.attributes,
                        text: st.root.text,
                    };
                    LexState {
                        trees: trees2,
                        root: NodeModel {
                            children: seq![merged],
                            ..empty_node(wrapper_tag(), tree.depth - 1)
                        },
                        ..st
                    }
                }
            }
        },
        Tokenizer::Attribute => {
            if st.trees.len() == 0 {
                st
            } else {
                let top = st.trees.last();
                LexState {
                    trees: st.trees.drop_last().push(
                        NodeModel {
                            attributes: top.attributes.insert(attr_key(t.value), attr_val(t.value)),
                            ..top
                        },
                    ),
                    ..st
                }
            }
        },
        Tokenizer::Text => {
            if st.trees.len() == 0 {
                st
            } else {
                let top = st.trees.last();
                LexState {
                    trees: st.trees.drop_last().push(NodeModel { text: t.value, ..top }),
                    ..st
                }
            }
        },
        Tokenizer::Annocation => st,
    }
}

/// The tree builder's state after the first `n` tokens of the stream.
pub open spec fn lex_fold(tokens: Seq<TokenModel>, n: int) -> LexState
    decreases n,
{
    if n <= 0 {
        lex_init()
    } else {
        lex_step(lex_fold(tokens, n - 1), tokens[n - 1])
    }
}

/// Whether a token stream is well-formed input for the tree builder: no
/// attribute or text token arrives while no tag is open. A stream that
/// breaks this is a caller-input error, a malformed document.
pub open spec fn lex_ok(tokens: Seq<TokenModel>) -> bool {
    forall|n: int|
        0 <= n < tokens.len() && ((#[trigger] tokens[n]).kind is Attribute || tokens[n].kind
            is Text) ==> lex_fold(tokens, n).trees.len() > 0
}

/// Whether two builder states agree on everything but the recorded
/// diagnostics.
pub open spec fn same_tree_state(a: LexState, b: LexState) -> bool {
    a.trees == b.trees && a.root == b.root
}

/// One element of the reconstructed tree.
#[derive(Debug)]
pub struct NodeTree {
    tag: String,
    index: usize,
    children: Vec<Box<NodeTree>>,
    attributes: Vec<(String, String)>,
    text: String,
}

/// The models of a sequence of child nodes, in order.
pub open spec fn children_models(s: Seq<Box<NodeTree>>) -> Seq<NodeModel> {
    Seq::new(s.len(), |i: int| s[i].model())
}

impl NodeTree {
    /// The model of this node: its fields as plain mathematical values.
    pub closed spec fn model(&self) -> NodeModel
        decreases self,
    {
        NodeModel {
            tag: self.tag@,
            depth: self.index as int,
            children: Seq::new(
                self.children@.len(),
                |i: int|
                    if 0 <= i < self.children@.len() {
                        self.children@[i].model()
                    } else {
                        arbitrary()
                    },
            ),
            attributes: attrs_map(self.attributes@),
            text: self.text@,
        }
    }

    /// Builds a node with the given tag, children and depth, no
    /// attributes and no text.
    pub fn new(tag: &str, children: Vec<Box<NodeTree>>, index: usize) -> (r: NodeTree)
        ensures
            r.model() == (NodeModel {
                tag: tag@,
                depth: index as int,
                children: children_models(children@),
                attributes: Map::<Seq<char>, Seq<char>>::empty(),
                text: Seq::<char>::empty(),
            }),
    {
        let r = NodeTree {
            tag: tag.to_owned(),
            index,
            children,
            attributes: Vec::new(),
            text: String::new(),
        };
        proof {
            assert(r.model().children =~= children_models(children@));
            assert(r.model() == (NodeModel {
                tag: tag@,
                depth: index as int,
                children: children_models(children@),
                attributes: Map::<Seq<char>, Seq<char>>::empty(),
                text: Seq::<char>::empty(),
            }));
        }
        r
    }

    /// Writes one attribute; a later write for the same key wins.
    pub fn set_attributes(&mut self, key: &str, value: &str)
        ensures
            final(self).model() == (NodeModel {
                attributes: old(self).model().attributes.insert(key@, value@),
                ..old(self).model()
            }),
    {
        self.attributes.push((key.to_owned(), value.to_owned()));
        proof {
            assert(self.attributes@.drop_last() =~= old(self).attributes@);
            assert(final(self).model() == (NodeModel {
                attributes: old(self).model().attributes.insert(key@, value@),
                ..old(self).model()
            }));
        }
    }

    /// Sets the node's text, overwriting any prior text.
    pub fn set_text(&mut self, text: &str)
        ensures
            final(self).model() == (NodeModel { text: text@, ..old(self).model() }),
    {
        self.text = text.to_owned();
        proof {
            assert(final(self).model() == (NodeModel { text: text@, ..old(self).model() }));
        }
    }

    /// True exactly when the node has no children, no attributes and no
    /// text.
    pub fn is_empty(&self) -> (r: bool)
        ensures
            r <==> (self.model().children.len() == 0 && self.model().attributes
                =~= Map::<Seq<char>, Seq<char>>::empty() && self.model().text.len() == 0),
    {
        proof {
            if self.attributes@.len() == 0 {
                assert(attrs_map(self.attributes@) =~= Map::<Seq<char>, Seq<char>>::empty());
            } else {
                assert(attrs_map(self.attributes@).contains_key(self.attributes@.last().0@));
            }
        }
        self.children.len() == 0 && self.attributes.len() == 0 && self.text.as_str().is_empty()
    }
}

/// When the first `k` characters of a slice hold no `=` and the slice
/// either ends at `k` or holds `=` there, the key is exactly those `k`
/// characters, an `=` exists exactly when `k` is inside the slice, and
/// the rest after the first `=` is everything past position `k`.
proof fn lemma_eq_split(s: Seq<char>, k: int)
    requires
        0 <= k <= s.len(),
        forall|j: int| 0 <= j < k ==> s[j] != '=',
        k == s.len() || s[k] == '=',
    ensures
        before_eq(s) =~= s.subrange(0, k),
        has_eq(s) <==> k < s.len(),
        k < s.len() ==> after_eq(s) =~= s.subrange(k + 1, s.len() as int),
    decreases s.len(),
{
    if s.len() == 0 {
    } else if k == 0 {
        assert(s[0] == '=');
        assert(s.drop_first() =~= s.subrange(1, s.len() as int));
    } else {
        assert(s[0] != '=');
        let t = s.drop_first();
        assert(forall|j: int| 0 <= j < k - 1 ==> t[j] != '=');
        lemma_eq_split(t, k - 1);
        assert(before_eq(s) == seq![s[0]] + before_eq(t));
        assert(seq![s[0]] + t.subrange(0, k - 1) =~= s.subrange(0, k));
        if k < s.len() {
            assert(t.subrange(k, t.len() as int) =~= s.subrange(k + 1, s.len() as int));
        }
    }
}

/// Splits a raw attribute slice at its `=` separators and returns the
/// key and the value as owned strings.
fn split_attribute(s: &String) -> (r: (String, String))
    ensures
        r.0@ == attr_key(s@),
        r.1@ == attr_val(s@),
{
    let n = s.as_str().unicode_len();
    let mut k: usize = 0;
    while k < n && s.as_str().get_char(k) != '='
        invariant
            0 <= k <= n,
            n == s@.len(),
            forall|j: int| 0 <= j < k ==> s@[j] != '=',
        decreases n - k,
    {
        k = k + 1;
    }
    proof {
        lemma_eq_split(s@, k as int);
    }
    let key = s.as_str().substring_char(0, k).to_owned();
    if k == n {
        (key, String::new())
    } else {
        let mut m: usize = k + 1;
        while m < n && s.as_str().get_char(m) != '='
            invariant
                k < m <= n,
                n == s@.len(),
                forall|j: int| k < j < m ==> s@[j] != '=',
            decreases n - m,
        {
            m = m + 1;
        }
        let value = s.as_str().substring_char(k + 1, m).to_owned();
        proof {
            let t = s@.subrange(k as int + 1, s@.len() as int);
            assert(forall|j: int| 0 <= j < m - k - 1 ==> t[j] != '=');
            lemma_eq_split(t, m - k - 1);
            assert(t.subrange(0, m - k - 1) =~= s@.subrange(k as int + 1, m as int));
            assert(value@ == attr_val(s@));
        }
        (key, value)
    }
}

impl NodeTree {
    /// The node's tag name.
    pub fn tag(&self) -> (r: &String)
        ensures
            r@ == self.model().tag,
    {
        &self.tag
    }

    /// The 1-based stack depth the node was opened at; 0 on the root
    /// accumulator and on a fresh synthetic wrapper above depth-1 nodes.
    pub fn depth(&self) -> (r: usize)
        ensures
            r as int == self.model().depth,
    {
        self.index
    }

    /// The node's text, empty when none was set.
    pub fn text(&self) -> (r: &String)
        ensures
            r@ == self.model().text,
    {
        &self.text
    }

    /// The number of direct children.
    pub fn child_count(&self) -> (r: usize)
        ensures
            r as int == self.model().children.len(),
    {
        self.children.len()
    }

    /// The direct child at the given position.
    pub fn child(&self, i: usize) -> (r: &NodeTree)
        requires
            i < self.model().children.len(),
        ensures
            r.model() == self.model().children[i as int],
    {
        &self.children[i]
    }

    /// The attribute value stored under the given key, if any. A later
    /// write for the same key has overwritten every earlier one.
    pub fn get_attribute(&self, key: &str) -> (r: Option<&String>)
        ensures
            r is Some <==> self.model().attributes.contains_key(key@),
            r is Some ==> r->0@ == self.model().attributes[key@],
    {
        let k = key.to_owned();
        let mut i = self.attributes.len();
        while i > 0
            invariant
                i <= self.attributes@.len(),
                k@ == key@,
                forall|j: int| i <= j < self.attributes@.len() ==> (#[trigger] self.attributes@[j]).0@ != key@,
            decreases i,
        {
            i = i - 1;
            if self.attributes[i].0 == k {
                proof {
                    lemma_attrs_map_found(self.attributes@, i as int);
                }
                return Some(&self.attributes[i].1);
            }
        }
        proof {
            lemma_attrs_map_absent(self.attributes@, key@);
        }
        None
    }
}

/// When position `i` holds the last entry for its key, the attribute
/// map holds that entry's value under that key.
proof fn lemma_attrs_map_found(s: Seq<(String, String)>, i: int)
    requires
        0 <= i < s.len(),
        forall|j: int| i < j < s.len() ==> (#[trigger] s[j]).0@ != s[i].0@,
    ensures
        attrs_map(s).contains_key(s[i].0@),
        attrs_map(s)[s[i].0@] == s[i].1@,
    decreases s.len(),
{
    if i == s.len() - 1 {
    } else {
        assert(s.drop_last()[i] == s[i]);
        lemma_attrs_map_found(s.drop_last(), i);
    }
}

/// A key no entry carries is not in the attribute map.
proof fn lemma_attrs_map_absent(s: Seq<(String, String)>, key: Seq<char>)
    requires
        forall|j: int| 0 <= j < s.len() ==> (#[trigger] s[j]).0@ != key,
    ensures
        !attrs_map(s).contains_key(key),
    decreases s.len(),
{
    if s.len() > 0 {
        assert(forall|j: int| 0 <= j < s.len() - 1 ==> s.drop_last()[j] == #[trigger] s[j]);
        lemma_attrs_map_absent(s.drop_last(), key);
    }
}

impl Scanner {
    /// Consumes the token stream once, in order, and rebuilds the
    /// nesting structure with an explicit stack and the depth-merge
    /// rule of [`lex_step`]: the result is the accumulated root node
    /// after all tokens, together with the diagnostics, the values of
    /// the closing tokens that had no open tag and were discarded.
    /// Open nodes left on the stack at the end are abandoned.
    pub fn lexer(&mut self, tokens: Vec<Token>) -> (r: (NodeTree, Vec<String>))
        requires
            lex_ok(token_models(tokens@)),
        ensures
            final(self)@ == old(self)@,
            final(self).pending_state() == old(self).pending_state(),
            ({
                let st = lex_fold(token_models(tokens@), tokens@.len() as int);
                &&& r.0.model() == st.root
                &&& r.1@.len() == st.diags.len()
                &&& (forall|i: int|
                    0 <= i < st.diags.len() ==> (#[trigger] r.1@[i])@ == st.diags[i])
            }),
    {
        let ghost ms = token_models(tokens@);
        let mut toks = tokens;
        let mut stack: Vec<Token> = Vec::new();
        let mut trees: Vec<NodeTree> = Vec::new();
        let mut diags: Vec<String> = Vec::new();
        let mut node_tree = NodeTree::new("", Vec::new(), 0);
        let ghost mut n: int = 0;
        proof {
            reveal_strlit("");
            assert(""@ =~= Seq::<char>::empty());
            assert(children_models(Seq::<Box<NodeTree>>::empty()) =~= Seq::<NodeModel>::empty());
            assert(node_tree.model() =~= lex_init().root);
        }
        while toks.len() > 0
            invariant
                lex_ok(ms),
                0 <= n,
                n + toks@.len() == ms.len(),
                forall|j: int| 0 <= j < toks@.len() ==> (#[trigger] toks@[j])@ == ms[n + j],
                stack@.len() == lex_fold(ms, n).trees.len(),
                trees@.len() == lex_fold(ms, n).trees.len(),
                forall|i: int|
                    0 <= i < trees@.len() ==> (#[trigger] trees@[i]).model() == lex_fold(
                        ms,
                        n,
                    ).trees[i],
                forall|i: int| 0 <= i < trees@.len() ==> (#[trigger] trees@[i]).index >= 1,
                node_tree.model() == lex_fold(ms, n).root,
                diags@.len() == lex_fold(ms, n).diags.len(),
                forall|i: int|
                    0 <= i < diags@.len() ==> (#[trigger] diags@[i])@ == lex_fold(ms, n).diags[i],
            decreases toks@.len(),
        {
            let ghost st = lex_fold(ms, n);
            let ghost toks_before = toks@;
            let token = toks.remove(0);
            proof {
                assert(toks_before[0]@ == ms[n]);
                assert(token@ == ms[n]);
                assert(lex_fold(ms, n + 1) == lex_step(st, ms[n]));
                assert forall|j: int| 0 <= j < toks@.len() implies (#[trigger] toks@[j])@ == ms[n
                    + 1 + j] by {
                    assert(toks@[j] == toks_before[j + 1]);
                }
            }
            match token.tokenizer {
                Tokenizer::Tag => {
                    stack.push(token.clone());
                    let tree = NodeTree::new(token.value.as_str(), Vec::new(), stack.len());
                    let ghost tm = tree.model();
                    trees.push(tree);
                    proof {
                        assert(children_models(Seq::<Box<NodeTree>>::empty())
                            =~= Seq::<NodeModel>::empty());
                        assert(tm =~= empty_node(ms[n].value, st.trees.len() as int + 1));
                        assert(trees@.last().model() == tm);
                        assert forall|i: int|
                            0 <= i < trees@.len() implies (#[trigger] trees@[i]).model()
                            == lex_fold(ms, n + 1).trees[i] by {
                            if i < trees@.len() - 1 {
                                assert(trees@[i].model() == st.trees[i]);
                            }
                        }
                    }
                },
                Tokenizer::EndTag => {
                    let data = stack.pop();
                    if data.is_none() {
                        diags.push(token.value);
                        proof {
                            assert(st.trees.len() == 0);
                            assert(lex_fold(ms, n + 1).diags =~= st.diags.push(ms[n].value));
                        }
                    } else {
                        match trees.pop() {
                            Some(tree) => {
                                let ghost tree_m = tree.model();
                                proof {
                                    assert(tree_m == st.trees.last());
                                    assert(lex_fold(ms, n + 1).trees =~= st.trees.drop_last());
                                }
                                if node_tree.index == 0 {
                                    node_tree.index = tree.index - 1;
                                }
                                if node_tree.index == tree.index - 1 {
                                    let ghost before = node_tree.model();
                                    node_tree.children.push(Box::new(tree));
                                    proof {
                                        assert(node_tree.model().children =~= before.children.push(
                                            tree_m,
                                        ));
                                        assert(node_tree.model() =~= lex_fold(ms, n + 1).root);
                                    }
                                } else {
                                    let tidx = tree.index;
                                    let NodeTree {
                                        tag: ttag,
                                        index: _,
                                        children: mut tchildren,
                                        attributes: tattrs,
                                        text: _,
                                    } = tree;
                                    let ghost before = node_tree.model();
                                    node_tree.tag = ttag;
                                    node_tree.children.append(&mut tchildren);
                                    node_tree.attributes = tattrs;
                                    proof {
                                        assert(node_tree.model().children =~= before.children
                                            + tree_m.children);
                                        assert(node_tree.model() =~= (NodeModel {
                                            tag: tree_m.tag,
                                            depth: before.depth,
                                            children: before.children + tree_m.children,
                                            attributes: tree_m.attributes,
                                            text: before.text,
                                        }));
                                    }
                                    let ghost merged = node_tree.model();
                                    let mut wrapped: Vec<Box<NodeTree>> = Vec::new();
                                    wrapped.push(Box::new(node_tree));
                                    node_tree = NodeTree::new("div", wrapped, tidx - 1);
                                    proof {
                                        assert(node_tree.model().children =~= seq![merged]);
                                        assert(node_tree.model() =~= lex_fold(ms, n + 1).root);
                                    }
                                }
                            },
                            None => {
                                proof {
                                    assert(false);
                                }
                            },
                        }
                    }
                },
                Tokenizer::Attribute => {
                    let parts = split_attribute(&token.value);
                    match trees.pop() {
                        Some(mut top) => {
                            let ghost top_m = top.model();
                            top.set_attributes(parts.0.as_str(), parts.1.as_str());
                            let ghost top2 = top.model();
                            trees.push(top);
                            proof {
                                assert(top2 =~= (NodeModel {
                                    attributes: top_m.attributes.insert(
                                        attr_key(ms[n].value),
                                        attr_val(ms[n].value),
                                    ),
                                    ..top_m
                                }));
                                assert(lex_fold(ms, n + 1).trees =~= st.trees.drop_last().push(
                                    lex_fold(ms, n + 1).trees.last(),
                                ));
                                assert forall|i: int|
                                    0 <= i < trees@.len() implies (#[trigger] trees@[i]).model()
                                    == lex_fold(ms, n + 1).trees[i] by {
                                    if i < trees@.len() - 1 {
                                        assert(trees@[i].model() == st.trees[i]);
                                    }
                                }
                            }
                        },
                        None => {
                            proof {
                                assert(ms[n].kind is Attribute);
                                assert(lex_fold(ms, n).trees.len() > 0);
                                assert(false);
                            }
                        },
                    }
                },
                Tokenizer::Text => {
                    match trees.pop() {
                        Some(mut top) => {
                            let ghost top_m = top.model();
                            top.set_text(token.value.as_str());
                            trees.push(top);
                            proof {
                                assert forall|i: int|
                                    0 <= i < trees@.len() implies (#[trigger] trees@[i]).model()
                                    == lex_fold(ms, n + 1).trees[i] by {
                                    if i < trees@.len() - 1 {
                                        assert(trees@[i].model() == st.trees[i]);
                                    }
                                }
                            }
                        },
                        None => {
                            proof {
                                assert(ms[n].kind is Text);
                                assert(lex_fold(ms, n).trees.len() > 0);
                                assert(false);
                            }
                        },
                    }
                },
                Tokenizer::Annocation => {},
            }
            proof {
                n = n + 1;
            }
        }
        (node_tree, diags)
    }
}

/// Law: a comment token leaves the tree builder's state exactly as it
/// was. It affects neither the open nodes nor the nesting of the
/// sibling tags around it.
pub proof fn lemma_annotation_is_inert(st: LexState, t: TokenModel)
    requires
        t.kind is Annocation,
    ensures
        lex_step(st, t) == st,
{
}

/// Law: a closing token that arrives with no open tag is discarded and
/// only recorded as a diagnostic. The open nodes and the accumulated
/// root are untouched.
pub proof fn lemma_stray_end_tag_discarded(st: LexState, t: TokenModel)
    requires
        t.kind is EndTag,
        st.trees.len() == 0,
    ensures
        lex_step(st, t).trees == st.trees,
        lex_step(st, t).root == st.root,
        lex_step(st, t).diags == st.diags.push(t.value),
{
}

/// Steps on states that agree on everything but the diagnostics again
/// agree on everything but the diagnostics.
proof fn lemma_step_same_tree_state(a: LexState, b: LexState, t: TokenModel)
    requires
        same_tree_state(a, b),
    ensures
        same_tree_state(lex_step(a, t), lex_step(b, t)),
{
}

/// Folds over streams that agree on their first `m` tokens reach the
/// same state after `m` tokens.
proof fn lemma_fold_prefix_eq(a: Seq<TokenModel>, b: Seq<TokenModel>, m: int)
    requires
        0 <= m <= a.len(),
        m <= b.len(),
        forall|j: int| 0 <= j < m ==> a[j] == #[trigger] b[j],
    ensures
        lex_fold(a, m) == lex_fold(b, m),
    decreases m,
{
    if m > 0 {
        lemma_fold_prefix_eq(a, b, m - 1);
    }
}

/// Law: a stray closing token does not corrupt subsequent tree
/// assembly. Removing it from the stream leaves the open nodes and the
/// accumulated root of every later state exactly as they were: the
/// remaining tokens are processed unaffected.
pub proof fn lemma_stray_end_tag_harmless(tokens: Seq<TokenModel>, k: int, n: int)
    requires
        0 <= k < tokens.len(),
        tokens[k].kind is EndTag,
        lex_fold(tokens, k).trees.len() == 0,
        k < n <= tokens.len(),
    ensures
        same_tree_state(lex_fold(tokens.remove(k), n - 1), lex_fold(tokens, n)),
    decreases n,
{
    if n == k + 1 {
        lemma_fold_prefix_eq(tokens.remove(k), tokens, k);
        lemma_stray_end_tag_discarded(lex_fold(tokens, k), tokens[k]);
    } else {
        lemma_stray_end_tag_harmless(tokens, k, n - 1);
        assert(tokens.remove(k)[n - 2] == tokens[n - 1]);
        lemma_step_same_tree_state(
            lex_fold(tokens.remove(k), n - 2),
            lex_fold(tokens, n - 1),
            tokens[n - 1],
        );
    }
}

} // verus!
