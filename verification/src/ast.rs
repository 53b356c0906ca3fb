use vstd::prelude::*;

verus! {

/// A parsed pattern: a tree of literal characters, repetition operators,
/// alternation, concatenation and anchors. Every child is owned exclusively
/// by its parent, so the tree has no sharing and no cycles.
#[derive(Debug, PartialEq, Eq)]
pub enum AST {
    /// A literal character. The value `'.'` is carried through unchanged;
    /// its wildcard meaning is a property of the matching instruction.
    Char(char),
    /// One or more repetitions of the child.
    Plus(Box<AST>),
    /// Zero or more repetitions of the child.
    Star(Box<AST>),
    /// Zero or one occurrence of the child.
    Question(Box<AST>),
    /// Alternation; always right-nested, so the leftmost surface alternative
    /// is the first field of the outermost node.
    Or(Box<AST>, Box<AST>),
    /// Ordered, possibly empty concatenation.
    Concat(Vec<AST>),
    /// Start anchor.
    Hat,
    /// End anchor wrapping the expression it anchors.
    Dollar(Box<AST>),
}

/// The mathematical shape of an `AST`: the same tree, with a ghost sequence
/// for each concatenation list. Contracts speak of this type.
pub enum AstView {
    Char(char),
    Plus(Box<AstView>),
    Star(Box<AstView>),
    Question(Box<AstView>),
    Or(Box<AstView>, Box<AstView>),
    Concat(Seq<AstView>),
    Hat,
    Dollar(Box<AstView>),
}

/// The abstract tree that an `AST` stands for.
pub open spec fn ast_view(a: AST) -> AstView
    decreases a, 0nat,
{
    match a {
        AST::Char(c) => AstView::Char(c),
        AST::Plus(e) => AstView::Plus(Box::new(ast_view(*e))),
        AST::Star(e) => AstView::Star(Box::new(ast_view(*e))),
        AST::Question(e) => AstView::Question(Box::new(ast_view(*e))),
        AST::Or(e1, e2) => AstView::Or(Box::new(ast_view(*e1)), Box::new(ast_view(*e2))),
        AST::Concat(v) => AstView::Concat(views(v@)),
        AST::Hat => AstView::Hat,
        AST::Dollar(e) => AstView::Dollar(Box::new(ast_view(*e))),
    }
}

/// The abstract trees of a sequence of `AST` nodes, in order.
pub open spec fn views(s: Seq<AST>) -> Seq<AstView>
    decreases s, 1nat,
{
    if s.len() == 0 {
        Seq::empty()
    } else {
        views(s.drop_last()).push(ast_view(s.last()))
    }
}

impl View for AST {
    type V = AstView;

    open spec fn view(&self) -> AstView {
        ast_view(*self)
    }
}

/// Node count of a tree; the termination measure for walks over an `AST`.
pub open spec fn ast_size(a: AST) -> nat
    decreases a, 0nat,
{
    match a {
        AST::Char(_) => 1,
        AST::Plus(e) => 1 + ast_size(*e),
        AST::Star(e) => 1 + ast_size(*e),
        AST::Question(e) => 1 + ast_size(*e),
        AST::Or(e1, e2) => 1 + ast_size(*e1) + ast_size(*e2),
        AST::Concat(v) => 1 + ast_size_seq(v@),
        AST::Hat => 1,
        AST::Dollar(e) => 1 + ast_size(*e),
    }
}

/// Total node count of a sequence of trees.
pub open spec fn ast_size_seq(s: Seq<AST>) -> nat
    decreases s, 1nat,
{
    if s.len() == 0 {
        0
    } else {
        ast_size(s.first()) + ast_size_seq(s.drop_first())
    }
}

pub proof fn lemma_ast_size_elem(s: Seq<AST>, i: int)
    requires
        0 <= i < s.len(),
    ensures
        ast_size(s[i]) <= ast_size_seq(s),
    decreases s.len(),
{
    if i > 0 {
        lemma_ast_size_elem(s.drop_first(), i - 1);
    }
}

pub proof fn lemma_views_push(s: Seq<AST>, a: AST)
    ensures
        views(s.push(a)) == views(s).push(a@),
{
    assert(s.push(a).drop_last() =~= s);
    assert(s.push(a).last() == a);
}

pub proof fn lemma_views_len(s: Seq<AST>)
    ensures
        views(s).len() == s.len(),
    decreases s.len(),
{
    if s.len() > 0 {
        lemma_views_len(s.drop_last());
    }
}

pub proof fn lemma_views_index(s: Seq<AST>, i: int)
    requires
        0 <= i < s.len(),
    ensures
        views(s).len() == s.len(),
        views(s)[i] == s[i]@,
    decreases s.len(),
{
    lemma_views_len(s);
    if i < s.len() - 1 {
        lemma_views_index(s.drop_last(), i);
    }
}

} // verus!
