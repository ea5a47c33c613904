//! The `with` item: the clause of a route scope that names its middleware.
//!
//! ```text
//! item  := `with` `::`? tree
//! tree  := name
//!        | name `::` tree
//!        | `{` (tree (`,` tree)* `,`?)? `}`
//! name  := a plain identifier | `self` | `super` | `crate`
//! ```
//!
//! `with a::b::{c, d}` names the two middleware `a::b::c` and `a::b::d`.
//! Renaming (`as`) and globs (`*`) are rejected.

use vstd::prelude::*;
use crate::tokens::Delimiter;
use crate::tokens::TokenTree;

verus! {

/// What is wrong with a token sequence that is no `with` item.
#[derive(Clone, Copy, Debug, PartialEq, Eq, Structural)]
pub enum ParseError {
    /// The item does not begin with the word `with`.
    ExpectedWith,
    /// Where a tree must begin there is no name, no `*` and no braced group.
    ExpectedTree,
    /// A name is followed by `as`.
    RenameNotSupported,
    /// A `*` stands in place of a tree.
    GlobNotSupported,
    /// Inside braces, a tree is followed by something other than `,`.
    ExpectedComma,
}

/// A failed parse: what is wrong, and at which token.
#[derive(Debug)]
pub struct ParseFailure {
    pub error: ParseError,
    /// The place of the offending token: its position in the sequence that
    /// was parsed or, where it stands inside groups, the position of the
    /// outermost of these groups, then the positions of the groups inside
    /// it, each within the one before, and last its own. A position equal to
    /// the length of its sequence stands for the end of that sequence.
    pub at: Vec<usize>,
}

/// The mathematical content of a [`ParseFailure`].
pub struct FailureAt {
    pub error: ParseError,
    pub at: Seq<int>,
}

/// Positions as mathematical integers.
pub open spec fn places(at: Seq<usize>) -> Seq<int> {
    Seq::new(at.len(), |i: int| at[i] as int)
}

impl View for ParseFailure {
    type V = FailureAt;

    open spec fn view(&self) -> FailureAt {
        FailureAt { error: self.error, at: places(self.at@) }
    }
}

/// The failure `error` at position `at` of the sequence that is parsed.
pub open spec fn failure(error: ParseError, at: int) -> FailureAt {
    FailureAt { error, at: seq![at] }
}

/// The failure `inner` of the contents of the group at position `group`.
pub open spec fn inside(group: int, inner: FailureAt) -> FailureAt {
    FailureAt { error: inner.error, at: seq![group] + inner.at }
}

/// `with ::a::b::{c, d}`.
#[derive(Debug)]
pub struct ItemUseMiddleware {
    /// Whether the path begins with `::`.
    pub leading_colon: bool,
    pub tree: UseMiddlewareTree,
}

/// A tree of middleware paths with shared prefixes.
#[derive(Debug)]
pub enum UseMiddlewareTree {
    Path(UseMiddlewarePath),
    Name(UseMiddlewareName),
    Group(UseMiddlewareGroup),
}

/// `ident :: tree`.
#[derive(Debug)]
pub struct UseMiddlewarePath {
    pub ident: String,
    pub tree: Box<UseMiddlewareTree>,
}

/// `ident`, the last segment of a path.
#[derive(Debug)]
pub struct UseMiddlewareName {
    pub ident: String,
}

/// `{ tree, tree, .. }`.
#[derive(Debug)]
pub struct UseMiddlewareGroup {
    /// The trees between the braces, in source order.
    pub items: Vec<UseMiddlewareTree>,
    /// Whether a comma follows the last tree.
    pub trailing_comma: bool,
}

/// The mathematical content of a [`UseMiddlewareTree`].
pub enum TreeView {
    Path(Seq<char>, Box<TreeView>),
    Name(Seq<char>),
    /// The trees of a group, and whether a comma follows the last.
    Group(Seq<TreeView>, bool),
}

/// The mathematical content of an [`ItemUseMiddleware`].
pub struct ItemView {
    pub leading_colon: bool,
    pub tree: TreeView,
}

impl UseMiddlewareTree {
    /// The tree as a mathematical value; `self@` is this.
    pub open spec fn content(self) -> TreeView
        decreases self, 0int,
    {
        match self {
            UseMiddlewareTree::Path(p) => TreeView::Path(p.ident@, Box::new((*p.tree).content())),
            UseMiddlewareTree::Name(n) => TreeView::Name(n.ident@),
            UseMiddlewareTree::Group(g) => TreeView::Group(
                forest_content(g.items@),
                g.trailing_comma,
            ),
        }
    }
}

/// The contents of a sequence of trees, one by one.
pub open spec fn forest_content(items: Seq<UseMiddlewareTree>) -> Seq<TreeView>
    decreases items, 1int,
{
    Seq::new(
        items.len(),
        |i: int|
            if 0 <= i < items.len() {
                items[i].content()
            } else {
                TreeView::Group(Seq::empty(), false)
            },
    )
}

impl View for UseMiddlewareTree {
    type V = TreeView;

    open spec fn view(&self) -> TreeView {
        self.content()
    }
}

impl View for ItemUseMiddleware {
    type V = ItemView;

    open spec fn view(&self) -> ItemView {
        ItemView { leading_colon: self.leading_colon, tree: self.tree@ }
    }
}

/// The token at `pos` is the word `text`.
pub open spec fn word_at(tokens: Seq<TokenTree>, pos: int, text: Seq<char>) -> bool {
    &&& 0 <= pos < tokens.len()
    &&& tokens[pos] matches TokenTree::Ident { name, .. }
    &&& name@ == text
}

/// The token at `pos` is the punctuation character `c`.
pub open spec fn punct_at(tokens: Seq<TokenTree>, pos: int, c: char) -> bool {
    &&& 0 <= pos < tokens.len()
    &&& tokens[pos] matches TokenTree::Punct { ch, .. }
    &&& ch == c
}

/// The tokens at `pos` and `pos + 1` form `::`: two colons, the first joint
/// with the second.
pub open spec fn path_sep_at(tokens: Seq<TokenTree>, pos: int) -> bool {
    &&& 0 <= pos < tokens.len()
    &&& tokens[pos] matches TokenTree::Punct { ch, joint }
    &&& ch == ':'
    &&& joint
    &&& punct_at(tokens, pos + 1, ':')
}

/// The token at `pos` is a group in braces.
pub open spec fn braces_at(tokens: Seq<TokenTree>, pos: int) -> bool {
    &&& 0 <= pos < tokens.len()
    &&& tokens[pos] matches TokenTree::Group { delimiter, .. }
    &&& delimiter == Delimiter::Brace
}

/// The token at `pos` may begin a path segment: a plain identifier, or one
/// of the words `self`, `super`, `crate`.
pub open spec fn name_at(tokens: Seq<TokenTree>, pos: int) -> bool {
    &&& 0 <= pos < tokens.len()
    &&& tokens[pos] matches TokenTree::Ident { name, plain }
    &&& (plain || name@ == "self"@ || name@ == "super"@ || name@ == "crate"@)
}

/// The text of the word at `pos`.
pub open spec fn word_text(tokens: Seq<TokenTree>, pos: int) -> Seq<char>
    recommends
        0 <= pos < tokens.len(),
        tokens[pos] is Ident,
{
    tokens[pos]->name@
}

/// The contents of the group at `pos`.
pub open spec fn group_stream(tokens: Seq<TokenTree>, pos: int) -> Seq<TokenTree>
    recommends
        0 <= pos < tokens.len(),
        tokens[pos] is Group,
{
    tokens[pos]->stream@
}

/// The grammar of `tree`: what stands at `pos` and where it ends, or what
/// is wrong and where.
pub open spec fn tree_at(tokens: Seq<TokenTree>, pos: int) -> Result<(TreeView, int), FailureAt>
    decreases tokens, tokens.len() - pos, 0int,
{
    if name_at(tokens, pos) {
        let name = word_text(tokens, pos);
        if path_sep_at(tokens, pos + 1) {
            match tree_at(tokens, pos + 3) {
                Ok((sub, next)) => Ok((TreeView::Path(name, Box::new(sub)), next)),
                Err(f) => Err(f),
            }
        } else if word_at(tokens, pos + 1, "as"@) {
            Err(failure(ParseError::RenameNotSupported, pos + 1))
        } else {
            Ok((TreeView::Name(name), pos + 1))
        }
    } else if punct_at(tokens, pos, '*') {
        Err(failure(ParseError::GlobNotSupported, pos))
    } else if braces_at(tokens, pos) {
        match list_at(group_stream(tokens, pos), 0) {
            Ok((items, trailing)) => Ok((TreeView::Group(items, trailing), pos + 1)),
            Err(f) => Err(inside(pos, f)),
        }
    } else {
        Err(failure(ParseError::ExpectedTree, pos))
    }
}

/// The grammar inside braces, from `pos` to the end of `tokens`: trees
/// separated by commas, the last comma optional. The result holds the trees
/// and says whether a comma follows the last. A tree always ends behind its
/// beginning (`lemma_tree_advances`), so the list ends with a tree only
/// where that tree reaches the end of `tokens`.
pub open spec fn list_at(tokens: Seq<TokenTree>, pos: int) -> Result<
    (Seq<TreeView>, bool),
    FailureAt,
>
    decreases tokens, tokens.len() - pos, 1int,
{
    if pos < 0 || pos >= tokens.len() {
        Ok((Seq::empty(), false))
    } else {
        match tree_at(tokens, pos) {
            Err(f) => Err(f),
            Ok((first, next)) => {
                if next >= tokens.len() || next <= pos {
                    Ok((seq![first], false))
                } else if punct_at(tokens, next, ',') {
                    if next + 1 >= tokens.len() {
                        Ok((seq![first], true))
                    } else {
                        list_after(seq![first], list_at(tokens, next + 1))
                    }
                } else {
                    Err(failure(ParseError::ExpectedComma, next))
                }
            },
        }
    }
}

/// The list that begins with the trees of `done` and goes on as `rest`.
pub open spec fn list_after(done: Seq<TreeView>, rest: Result<(Seq<TreeView>, bool), FailureAt>)
    -> Result<(Seq<TreeView>, bool), FailureAt> {
    match rest {
        Ok((more, trailing)) => Ok((done + more, trailing)),
        Err(f) => Err(f),
    }
}

/// The grammar of the whole item.
pub open spec fn item_at(tokens: Seq<TokenTree>, pos: int) -> Result<(ItemView, int), FailureAt> {
    if !word_at(tokens, pos, "with"@) {
        Err(failure(ParseError::ExpectedWith, pos))
    } else {
        let leading_colon = path_sep_at(tokens, pos + 1);
        let start = if leading_colon { pos + 3 } else { pos + 1 };
        match tree_at(tokens, start) {
            Ok((tree, next)) => Ok((ItemView { leading_colon, tree }, next)),
            Err(f) => Err(f),
        }
    }
}

/// A tree always ends behind the place where it began, and inside the
/// sequence.
pub proof fn lemma_tree_advances(tokens: Seq<TokenTree>, pos: int)
    ensures
        tree_at(tokens, pos) matches Ok((_, next)) ==> pos < next <= tokens.len(),
    decreases tokens.len() - pos,
{
    if name_at(tokens, pos) && path_sep_at(tokens, pos + 1) {
        lemma_tree_advances(tokens, pos + 3);
    }
}

/// What a parse returned, as a mathematical value.
pub open spec fn tree_outcome(r: Result<(UseMiddlewareTree, usize), ParseFailure>) -> Result<
    (TreeView, int),
    FailureAt,
> {
    match r {
        Ok((tree, next)) => Ok((tree@, next as int)),
        Err(f) => Err(f@),
    }
}

/// What a parse of a list returned, as a mathematical value.
pub open spec fn list_outcome(r: Result<(Vec<UseMiddlewareTree>, bool), ParseFailure>) -> Result<
    (Seq<TreeView>, bool),
    FailureAt,
> {
    match r {
        Ok((items, trailing)) => Ok((forest_content(items@), trailing)),
        Err(f) => Err(f@),
    }
}

/// What a parse of an item returned, as a mathematical value.
pub open spec fn item_outcome(r: Result<(ItemUseMiddleware, usize), ParseFailure>) -> Result<
    (ItemView, int),
    FailureAt,
> {
    match r {
        Ok((item, next)) => Ok((item@, next as int)),
        Err(f) => Err(f@),
    }
}

proof fn lemma_list_after(
    done: Seq<TreeView>,
    first: TreeView,
    rest: Result<(Seq<TreeView>, bool), FailureAt>,
)
    ensures
        list_after(Seq::empty(), rest) == rest,
        list_after(done, list_after(seq![first], rest)) == list_after(done.push(first), rest),
{
    match rest {
        Ok((more, trailing)) => {
            assert(Seq::<TreeView>::empty() + more =~= more);
            assert(done + (seq![first] + more) =~= done.push(first) + more);
        },
        Err(_) => {},
    }
}

fn fail(error: ParseError, at: usize) -> (f: ParseFailure)
    ensures
        f@ == failure(error, at as int),
{
    let mut place: Vec<usize> = Vec::new();
    place.push(at);
    let f = ParseFailure { error, at: place };
    assert(places(f.at@) =~= seq![at as int]);
    f
}

fn within(group: usize, inner: ParseFailure) -> (f: ParseFailure)
    ensures
        f@ == inside(group as int, inner@),
{
    let ParseFailure { error, at } = inner;
    let mut rest = at;
    let mut place: Vec<usize> = Vec::new();
    place.push(group);
    place.append(&mut rest);
    let f = ParseFailure { error, at: place };
    assert(places(f.at@) =~= seq![group as int] + places(at@));
    f
}

fn same_text(name: &String, word: &str) -> (same: bool)
    ensures
        same == (name@ == word@),
{
    let other = word.to_owned();
    *name == other
}

fn is_word(tokens: &Vec<TokenTree>, pos: usize, word: &str) -> (found: bool)
    ensures
        found == word_at(tokens@, pos as int, word@),
{
    if pos < tokens.len() {
        match &tokens[pos] {
            TokenTree::Ident { name, .. } => same_text(name, word),
            _ => false,
        }
    } else {
        false
    }
}

fn is_punct(tokens: &Vec<TokenTree>, pos: usize, c: char) -> (found: bool)
    ensures
        found == punct_at(tokens@, pos as int, c),
{
    if pos < tokens.len() {
        match &tokens[pos] {
            TokenTree::Punct { ch, .. } => *ch == c,
            _ => false,
        }
    } else {
        false
    }
}

fn is_path_sep(tokens: &Vec<TokenTree>, pos: usize) -> (found: bool)
    ensures
        found == path_sep_at(tokens@, pos as int),
{
    if pos < tokens.len() {
        match &tokens[pos] {
            TokenTree::Punct { ch, joint } => *ch == ':' && *joint && is_punct(tokens, pos + 1, ':'),
            _ => false,
        }
    } else {
        false
    }
}

fn parse_list(tokens: &Vec<TokenTree>) -> (r: Result<(Vec<UseMiddlewareTree>, bool), ParseFailure>)
    ensures
        list_outcome(r) == list_at(tokens@, 0),
    decreases tokens@, tokens@.len() + 1, 0int,
{
    let mut items: Vec<UseMiddlewareTree> = Vec::new();
    let mut trailing = false;
    let mut pos: usize = 0;
    proof {
        lemma_list_after(Seq::empty(), TreeView::Name(Seq::empty()), list_at(tokens@, 0));
    }
    while pos < tokens.len()
        invariant
            pos <= tokens.len(),
            pos < tokens.len() ==> list_at(tokens@, 0) == list_after(
                forest_content(items@),
                list_at(tokens@, pos as int),
            ),
            pos >= tokens.len() ==> list_at(tokens@, 0) == Ok::<
                (Seq<TreeView>, bool),
                FailureAt,
            >((forest_content(items@), trailing)),
        decreases tokens.len() - pos,
    {
        proof {
            lemma_tree_advances(tokens@, pos as int);
        }
        let ghost before = forest_content(items@);
        match UseMiddlewareTree::parse(tokens, pos) {
            Err(f) => {
                return Err(f);
            },
            Ok((tree, next)) => {
                items.push(tree);
                assert(forest_content(items@) =~= before.push(tree@));
                assert(before + seq![tree@] =~= before.push(tree@));
                if next >= tokens.len() {
                    trailing = false;
                    pos = tokens.len();
                } else if is_punct(tokens, next, ',') {
                    proof {
                        lemma_list_after(before, tree@, list_at(tokens@, next + 1));
                    }
                    trailing = true;
                    pos = next + 1;
                } else {
                    return Err(fail(ParseError::ExpectedComma, next));
                }
            },
        }
    }
    Ok((items, trailing))
}

impl UseMiddlewareTree {
    /// Parses the tree that begins at `tokens[pos]`: the tree and the
    /// position behind it, or what is wrong and where.
    pub fn parse(tokens: &Vec<TokenTree>, pos: usize) -> (r: Result<
        (UseMiddlewareTree, usize),
        ParseFailure,
    >)
        ensures
            tree_outcome(r) == tree_at(tokens@, pos as int),
        decreases tokens@, tokens@.len() - pos, 0int,
    {
        if pos >= tokens.len() {
            return Err(fail(ParseError::ExpectedTree, pos));
        }
        match &tokens[pos] {
            TokenTree::Ident { name, plain } => {
                if *plain || same_text(name, "self") || same_text(name, "super") || same_text(
                    name,
                    "crate",
                ) {
                    if is_path_sep(tokens, pos + 1) {
                        match UseMiddlewareTree::parse(tokens, pos + 3) {
                            Ok((sub, next)) => {
                                let path = UseMiddlewarePath {
                                    ident: name.clone(),
                                    tree: Box::new(sub),
                                };
                                Ok((UseMiddlewareTree::Path(path), next))
                            },
                            Err(f) => Err(f),
                        }
                    } else if is_word(tokens, pos + 1, "as") {
                        Err(fail(ParseError::RenameNotSupported, pos + 1))
                    } else {
                        let name = UseMiddlewareName { ident: name.clone() };
                        Ok((UseMiddlewareTree::Name(name), pos + 1))
                    }
                } else {
                    Err(fail(ParseError::ExpectedTree, pos))
                }
            },
            TokenTree::Punct { ch, .. } => {
                if *ch == '*' {
                    Err(fail(ParseError::GlobNotSupported, pos))
                } else {
                    Err(fail(ParseError::ExpectedTree, pos))
                }
            },
            TokenTree::Literal => Err(fail(ParseError::ExpectedTree, pos)),
            TokenTree::Group { delimiter, stream } => {
                match delimiter {
                    Delimiter::Brace => {
                        match parse_list(stream) {
                            Ok((items, trailing_comma)) => {
                                let group = UseMiddlewareGroup { items, trailing_comma };
                                Ok((UseMiddlewareTree::Group(group), pos + 1))
                            },
                            Err(f) => Err(within(pos, f)),
                        }
                    },
                    _ => Err(fail(ParseError::ExpectedTree, pos)),
                }
            },
        }
    }
}

impl ItemUseMiddleware {
    /// Parses the item that begins at `tokens[pos]`: the item and the
    /// position behind it, or what is wrong and where.
    pub fn parse(tokens: &Vec<TokenTree>, pos: usize) -> (r: Result<
        (ItemUseMiddleware, usize),
        ParseFailure,
    >)
        ensures
            item_outcome(r) == item_at(tokens@, pos as int),
    {
        if pos >= tokens.len() || !is_word(tokens, pos, "with") {
            return Err(fail(ParseError::ExpectedWith, pos));
        }
        let leading_colon = is_path_sep(tokens, pos + 1);
        let start = if leading_colon {
            pos + 3
        } else {
            pos + 1
        };
        match UseMiddlewareTree::parse(tokens, start) {
            Ok((tree, next)) => Ok((ItemUseMiddleware { leading_colon, tree }, next)),
            Err(f) => Err(f),
        }
    }
}

/// The middleware paths that a tree names, each a sequence of segments, in
/// the order in which the tree writes them.
pub open spec fn tree_paths(tree: TreeView) -> Seq<Seq<Seq<char>>>
    decreases tree, 0int,
{
    match tree {
        TreeView::Name(name) => seq![seq![name]],
        TreeView::Path(head, sub) => prefix_each(head, tree_paths(*sub)),
        TreeView::Group(items, _) => forest_paths(items, items.len() as int),
    }
}

/// Every path of `paths` with the segment `head` put in front.
pub open spec fn prefix_each(head: Seq<char>, paths: Seq<Seq<Seq<char>>>) -> Seq<Seq<Seq<char>>> {
    Seq::new(paths.len(), |i: int| seq![head] + paths[i])
}

/// The paths of the first `count` trees of `items`, tree after tree.
pub open spec fn forest_paths(items: Seq<TreeView>, count: int) -> Seq<Seq<Seq<char>>>
    decreases items, count,
{
    if count <= 0 || count > items.len() {
        Seq::empty()
    } else {
        forest_paths(items, count - 1) + tree_paths(items[count - 1])
    }
}

fn with_head(head: &String, path: &Vec<String>) -> (out: Vec<String>)
    ensures
        out.deep_view() == seq![head@] + path.deep_view(),
{
    let mut out: Vec<String> = Vec::new();
    out.push(head.clone());
    let mut j: usize = 0;
    while j < path.len()
        invariant
            j <= path.len(),
            out@.len() == j + 1,
            out@[0]@ == head@,
            forall|k: int| 0 <= k < j ==> (#[trigger] out@[k + 1])@ == path@[k]@,
        decreases path.len() - j,
    {
        out.push(path[j].clone());
        j += 1;
    }
    assert(out.deep_view() =~= seq![head@] + path.deep_view()) by {
        assert forall|k: int| 0 <= k < out@.len() implies out.deep_view()[k] == (seq![head@]
            + path.deep_view())[k] by {
            if k > 0 {
                assert(out@[(k - 1) + 1]@ == path@[k - 1]@);
            }
        }
    }
    out
}

impl UseMiddlewareTree {
    /// The middleware paths that the tree names: every path from the root to
    /// a name, with the segments along it, in source order.
    pub fn items(&self) -> (paths: Vec<Vec<String>>)
        ensures
            paths.deep_view() == tree_paths(self@),
        decreases self,
    {
        match self {
            UseMiddlewareTree::Name(n) => {
                let mut path: Vec<String> = Vec::new();
                path.push(n.ident.clone());
                let mut paths: Vec<Vec<String>> = Vec::new();
                paths.push(path);
                assert(paths.deep_view() =~= seq![seq![n.ident@]]) by {
                    assert(paths@[0].deep_view() =~= seq![n.ident@]);
                }
                paths
            },
            UseMiddlewareTree::Path(p) => {
                let subs = p.tree.items();
                let mut paths: Vec<Vec<String>> = Vec::new();
                let mut i: usize = 0;
                while i < subs.len()
                    invariant
                        i <= subs.len(),
                        paths@.len() == i,
                        forall|k: int|
                            0 <= k < i ==> (#[trigger] paths@[k]).deep_view() == seq![p.ident@]
                                + subs@[k].deep_view(),
                    decreases subs.len() - i,
                {
                    paths.push(with_head(&p.ident, &subs[i]));
                    i += 1;
                }
                assert(paths.deep_view() =~= prefix_each(p.ident@, subs.deep_view()));
                paths
            },
            UseMiddlewareTree::Group(g) => {
                let ghost trees = forest_content(g.items@);
                let mut paths: Vec<Vec<String>> = Vec::new();
                let mut i: usize = 0;
                assert(paths.deep_view() =~= forest_paths(trees, 0));
                while i < g.items.len()
                    invariant
                        i <= g.items.len(),
                        decreases_to!(self => g.items),
                        trees == forest_content(g.items@),
                        paths.deep_view() == forest_paths(trees, i as int),
                    decreases g.items.len() - i,
                {
                    let ghost before = paths.deep_view();
                    let mut more = g.items[i].items();
                    let ghost added = more.deep_view();
                    paths.append(&mut more);
                    assert(paths.deep_view() =~= before + added);
                    i += 1;
                }
                paths
            },
        }
    }
}

} // verus!
