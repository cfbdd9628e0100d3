//! The query-string grammar: whitespace-separated leaves, each an optional
//! `+` (must) or `-` (not) before a literal; a literal is an optional
//! alphabetic field name, a colon, and a word or a quoted phrase.
//!
//! The grammar is stated as a specification-level parser over the character
//! sequence; `query_language` returns exactly what that parser says, `None`
//! exactly on malformed or not fully consumed input.

use vstd::prelude::*;
use vstd::string::StrSliceExecFns;
use vstd::string::StringExecFns;

verus! {

/// Whether a character counts as alphanumeric for words.
pub uninterp spec fn alnum(c: char) -> bool;

/// Whether a character counts as alphabetic for field names.
pub uninterp spec fn alpha(c: char) -> bool;

/// Relies on char::is_alphanumeric: the result depends on the character alone.
pub assume_specification[ char::is_alphanumeric ](c: char) -> (r: bool)
    ensures
        r == alnum(c),
;

/// Relies on char::is_alphabetic: the result depends on the character alone.
pub assume_specification[ char::is_alphabetic ](c: char) -> (r: bool)
    ensures
        r == alpha(c),
;

/// A leaf of the query tree: an optional field name and a phrase.
pub struct QueryLiteral {
    /// The field searched; the default field when absent.
    pub field_name: Option<String>,
    /// The word or quoted phrase searched for.
    pub phrase: String,
}

/// A node of the query tree.
pub enum QueryNode {
    /// A bare literal.
    Literal(QueryLiteral),
    /// A leaf that must match, written with a leading `+`.
    Must(Box<QueryNode>),
    /// A leaf that must not match, written with a leading `-`.
    Not(Box<QueryNode>),
    /// Whitespace-separated subqueries.
    Clause(Vec<QueryNode>),
}

/// A parsed query.
pub struct QueryAST {
    /// The root node.
    pub root: QueryNode,
}

/// The mathematical shape of a query node: field names and phrases as
/// character sequences. `Must` and `Not` hold their single child as a
/// one-element sequence.
pub enum QueryNodeView {
    /// A literal leaf.
    Literal(Option<Seq<char>>, Seq<char>),
    /// A leaf that must match.
    Must(Seq<QueryNodeView>),
    /// A leaf that must not match.
    Not(Seq<QueryNodeView>),
    /// Whitespace-separated subqueries.
    Clause(Seq<QueryNodeView>),
}

/// The view of a query node.
pub open spec fn node_view(n: QueryNode) -> QueryNodeView
    decreases n,
{
    match n {
        QueryNode::Literal(lit) => QueryNodeView::Literal(
            match lit.field_name {
                Some(f) => Some(f@),
                None => None,
            },
            lit.phrase@,
        ),
        QueryNode::Must(inner) => QueryNodeView::Must(seq![node_view(*inner)]),
        QueryNode::Not(inner) => QueryNodeView::Not(seq![node_view(*inner)]),
        QueryNode::Clause(subs) => QueryNodeView::Clause(views_of(subs@)),
    }
}

/// The views of a node sequence.
pub open spec fn views_of(ns: Seq<QueryNode>) -> Seq<QueryNodeView>
    decreases ns,
{
    if ns.len() == 0 {
        Seq::empty()
    } else {
        seq![node_view(ns[0])] + views_of(ns.skip(1))
    }
}

/// First index at or past `i` whose character leaves the class: alphabetic
/// for field names, alphanumeric for words.
pub open spec fn class_end(s: Seq<char>, i: int, field_class: bool) -> int
    decreases s.len() - i,
{
    if i < 0 || i >= s.len() {
        s.len() as int
    } else if (if field_class {
        alpha(s[i])
    } else {
        alnum(s[i])
    }) {
        class_end(s, i + 1, field_class)
    } else {
        i
    }
}

/// First quote at or past `i`, or the end of the input.
pub open spec fn quote_end(s: Seq<char>, i: int) -> int
    decreases s.len() - i,
{
    if i < 0 || i >= s.len() {
        s.len() as int
    } else if s[i] == '"' {
        i
    } else {
        quote_end(s, i + 1)
    }
}

/// A whitespace separator between leaves: space, tab, or a line break.
pub open spec fn is_qspace(c: char) -> bool {
    c == ' ' || c == '\t' || c == '\n' || c == '\r'
}

/// First non-whitespace at or past `i`, or the end of the input.
pub open spec fn space_end(s: Seq<char>, i: int) -> int
    decreases s.len() - i,
{
    if i < 0 || i >= s.len() {
        s.len() as int
    } else if is_qspace(s[i]) {
        space_end(s, i + 1)
    } else {
        i
    }
}

/// A word or a quoted phrase at `i`: the text and the index just past it.
pub open spec fn term_val_at(s: Seq<char>, i: int) -> Option<(Seq<char>, int)> {
    if 0 <= i < s.len() && s[i] == '"' {
        let e = quote_end(s, i + 1);
        if e < s.len() && e > i + 1 {
            Some((s.subrange(i + 1, e), e + 1))
        } else {
            None
        }
    } else {
        let e = class_end(s, i, false);
        if e > i {
            Some((s.subrange(i, e), e))
        } else {
            None
        }
    }
}

/// A literal at `i`: `field:value` when an alphabetic run ends at a colon and
/// a value follows, else a bare value under the default field.
pub open spec fn literal_at(s: Seq<char>, i: int) -> Option<(QueryNodeView, int)> {
    let fe = class_end(s, i, true);
    if fe > i && fe < s.len() && s[fe] == ':' && term_val_at(s, fe + 1) is Some {
        let (ph, e) = term_val_at(s, fe + 1)->Some_0;
        Some((QueryNodeView::Literal(Some(s.subrange(i, fe)), ph), e))
    } else {
        match term_val_at(s, i) {
            Some((ph, e)) => Some((QueryNodeView::Literal(None, ph), e)),
            None => None,
        }
    }
}

/// A leaf at `i`: a literal, wrapped in `Not` after `-` and in `Must` after
/// `+`.
pub open spec fn leaf_at(s: Seq<char>, i: int) -> Option<(QueryNodeView, int)> {
    if 0 <= i < s.len() && s[i] == '-' {
        match literal_at(s, i + 1) {
            Some((v, e)) => Some((QueryNodeView::Not(seq![v]), e)),
            None => None,
        }
    } else if 0 <= i < s.len() && s[i] == '+' {
        match literal_at(s, i + 1) {
            Some((v, e)) => Some((QueryNodeView::Must(seq![v]), e)),
            None => None,
        }
    } else {
        literal_at(s, i)
    }
}

/// The leaves from `i` to the end: each leaf must be followed by spaces or
/// the end of the input. `None` on a malformed leaf or a leaf ending mid-word.
/// (A successful leaf always consumes input; the `None` guard on a
/// non-advancing position only keeps the recursion visibly bounded.)
pub open spec fn leaves_from(s: Seq<char>, i: int) -> Option<Seq<QueryNodeView>>
    decreases s.len() - i,
{
    if i >= s.len() {
        Some(Seq::empty())
    } else {
        match leaf_at(s, i) {
            None => None,
            Some((v, e)) => {
                let a = space_end(s, e);
                if a == e && e < s.len() {
                    None
                } else if a <= i || a > s.len() {
                    None
                } else {
                    match leaves_from(s, a) {
                        None => None,
                        Some(rest) => Some(seq![v] + rest),
                    }
                }
            },
        }
    }
}

/// The whole grammar: optional leading spaces, then leaves; a single leaf
/// stands alone, any other number forms a clause.
pub open spec fn parse_query(s: Seq<char>) -> Option<QueryNodeView> {
    match leaves_from(s, space_end(s, 0)) {
        None => None,
        Some(vs) => if vs.len() == 1 {
            Some(vs[0])
        } else {
            Some(QueryNodeView::Clause(vs))
        },
    }
}

/// A run of in-class characters ending at the first that is not decides
/// `class_end`.
proof fn lemma_class_end_unique(s: Seq<char>, i: int, field_class: bool, e: int)
    requires
        0 <= i <= e <= s.len(),
        forall|j: int|
            i <= j < e ==> (if field_class {
                alpha(#[trigger] s[j])
            } else {
                alnum(s[j])
            }),
        e < s.len() ==> !(if field_class {
            alpha(s[e])
        } else {
            alnum(s[e])
        }),
    ensures
        class_end(s, i, field_class) == e,
    decreases e - i,
{
    if i < e {
        lemma_class_end_unique(s, i + 1, field_class, e);
    }
}

proof fn lemma_quote_end_unique(s: Seq<char>, i: int, e: int)
    requires
        0 <= i <= e <= s.len(),
        forall|j: int| i <= j < e ==> #[trigger] s[j] != '"',
        e < s.len() ==> s[e] == '"',
    ensures
        quote_end(s, i) == e,
    decreases e - i,
{
    if i < e {
        lemma_quote_end_unique(s, i + 1, e);
    }
}

proof fn lemma_space_end_unique(s: Seq<char>, i: int, e: int)
    requires
        0 <= i <= e <= s.len(),
        forall|j: int| i <= j < e ==> is_qspace(#[trigger] s[j]),
        e < s.len() ==> !is_qspace(s[e]),
    ensures
        space_end(s, i) == e,
    decreases e - i,
{
    if i < e {
        lemma_space_end_unique(s, i + 1, e);
    }
}

/// Appending a node appends its view.
proof fn lemma_views_of_push(ns: Seq<QueryNode>, n: QueryNode)
    ensures
        views_of(ns.push(n)) == views_of(ns) + seq![node_view(n)],
    decreases ns.len(),
{
    if ns.len() == 0 {
        assert(ns.push(n).skip(1) =~= Seq::<QueryNode>::empty());
        assert(ns.push(n)[0] == n);
        assert(views_of(Seq::<QueryNode>::empty()) =~= Seq::<QueryNodeView>::empty());
        assert(views_of(ns.push(n)) =~= seq![node_view(n)] + views_of(ns.push(n).skip(1)));
        assert(views_of(ns.push(n)) =~= seq![node_view(n)]);
        assert(views_of(ns) =~= Seq::<QueryNodeView>::empty());
        assert(views_of(ns) + seq![node_view(n)] =~= seq![node_view(n)]);
    } else {
        assert(ns.push(n)[0] == ns[0]);
        assert(ns.push(n).skip(1) =~= ns.skip(1).push(n));
        lemma_views_of_push(ns.skip(1), n);
        assert(seq![node_view(ns[0])] + (views_of(ns.skip(1)) + seq![node_view(n)]) =~= (seq![
            node_view(ns[0]),
        ] + views_of(ns.skip(1))) + seq![node_view(n)]);
        assert(views_of(ns.push(n)) =~= views_of(ns) + seq![node_view(n)]);
    }
}

proof fn lemma_views_of_len(ns: Seq<QueryNode>)
    ensures
        views_of(ns).len() == ns.len(),
        ns.len() > 0 ==> views_of(ns)[0] == node_view(ns[0]),
    decreases ns.len(),
{
    if ns.len() > 0 {
        lemma_views_of_len(ns.skip(1));
    }
}

/// First index at or past `i` whose character fails `word` (alphanumeric) or
/// `field` (alphabetic) classing.
fn scan_class(s: &str, i: usize, n: usize, field_class: bool) -> (e: usize)
    requires
        i <= n,
        n == s@.len(),
    ensures
        i <= e <= n,
        e == class_end(s@, i as int, field_class),
{
    let mut e = i;
    while e < n
        invariant
            i <= e <= n,
            n == s@.len(),
            forall|j: int|
                i <= j < e ==> (if field_class {
                    alpha(#[trigger] s@[j])
                } else {
                    alnum(s@[j])
                }),
        decreases n - e,
    {
        let c = s.get_char(e);
        let ok = if field_class {
            c.is_alphabetic()
        } else {
            c.is_alphanumeric()
        };
        if !ok {
            proof {
                lemma_class_end_unique(s@, i as int, field_class, e as int);
            }
            return e;
        }
        e = e + 1;
    }
    proof {
        lemma_class_end_unique(s@, i as int, field_class, n as int);
    }
    e
}

/// Bounds of a class scan.
pub proof fn lemma_class_end_bounds(s: Seq<char>, i: int, field_class: bool)
    requires
        0 <= i <= s.len(),
    ensures
        i <= class_end(s, i, field_class) <= s.len(),
    decreases s.len() - i,
{
    if i < s.len() && (if field_class {
        alpha(s[i])
    } else {
        alnum(s[i])
    }) {
        lemma_class_end_bounds(s, i + 1, field_class);
    }
}

/// First index at or past `i` ending an alphanumeric run; on an alphanumeric
/// character the scan advances at least one step.
pub fn scan_word_end(s: &str, i: usize, n: usize) -> (e: usize)
    requires
        i <= n,
        n == s@.len(),
    ensures
        i <= e <= n,
        e == class_end(s@, i as int, false),
        i < n && alnum(s@[i as int]) ==> e > i,
{
    proof {
        if i < n && alnum(s@[i as int]) {
            lemma_class_end_bounds(s@, i + 1, false);
        }
    }
    scan_class(s, i, n, false)
}

/// Parses a word or a quoted phrase at `i`: the text and the index just past
/// it, exactly as the grammar says.
fn parse_term_val(s: &str, i: usize, n: usize) -> (r: Option<(String, usize)>)
    requires
        i <= n,
        n == s@.len(),
    ensures
        match (r, term_val_at(s@, i as int)) {
            (Some((t, e)), Some((ph, es))) => t@ == ph && e == es && i < e <= n,
            (None, None) => true,
            _ => false,
        },
{
    if i < n && s.get_char(i) == '"' {
        // quoted phrase: everything up to the closing quote
        let mut e = i + 1;
        while e < n
            invariant
                i < n,
                i + 1 <= e <= n,
                n == s@.len(),
                s@[i as int] == '"',
                forall|j: int| i + 1 <= j < e ==> #[trigger] s@[j] != '"',
            decreases n - e,
        {
            if s.get_char(e) == '"' {
                proof {
                    lemma_quote_end_unique(s@, i + 1, e as int);
                }
                if e == i + 1 {
                    return None;
                }
                let text = s.substring_char(i + 1, e);
                return Some((String::from_str(text), e + 1));
            }
            e = e + 1;
        }
        proof {
            lemma_quote_end_unique(s@, i + 1, n as int);
        }
        None
    } else {
        let e = scan_class(s, i, n, false);
        if e > i {
            let text = s.substring_char(i, e);
            Some((String::from_str(text), e))
        } else {
            None
        }
    }
}

/// Parses a literal at `i`: `field:value` or a bare value.
fn parse_literal(s: &str, i: usize, n: usize) -> (r: Option<(QueryNode, usize)>)
    requires
        i <= n,
        n == s@.len(),
    ensures
        match (r, literal_at(s@, i as int)) {
            (Some((node, e)), Some((v, es))) => node_view(node) == v && e == es && i < e <= n,
            (None, None) => true,
            _ => false,
        },
{
    let fe = scan_class(s, i, n, true);
    if fe > i && fe < n && s.get_char(fe) == ':' {
        match parse_term_val(s, fe + 1, n) {
            Some((phrase, e)) => {
                let field_text = s.substring_char(i, fe);
                return Some(
                    (
                        QueryNode::Literal(
                            QueryLiteral {
                                field_name: Some(String::from_str(field_text)),
                                phrase,
                            },
                        ),
                        e,
                    ),
                );
            },
            None => {},
        }
    }
    match parse_term_val(s, i, n) {
        Some((phrase, e)) => Some(
            (QueryNode::Literal(QueryLiteral { field_name: None, phrase }), e),
        ),
        None => None,
    }
}

/// Parses a leaf at `i`: a literal, optionally marked `+` (must) or `-` (not).
fn parse_leaf(s: &str, i: usize, n: usize) -> (r: Option<(QueryNode, usize)>)
    requires
        i <= n,
        n == s@.len(),
    ensures
        match (r, leaf_at(s@, i as int)) {
            (Some((node, e)), Some((v, es))) => node_view(node) == v && e == es && i < e <= n,
            (None, None) => true,
            _ => false,
        },
{
    if i < n && s.get_char(i) == '-' {
        match parse_literal(s, i + 1, n) {
            Some((expr, e)) => Some((QueryNode::Not(Box::new(expr)), e)),
            None => None,
        }
    } else if i < n && s.get_char(i) == '+' {
        match parse_literal(s, i + 1, n) {
            Some((expr, e)) => Some((QueryNode::Must(Box::new(expr)), e)),
            None => None,
        }
    } else {
        parse_literal(s, i, n)
    }
}

/// Skips whitespace at `i`.
fn skip_spaces(s: &str, i: usize, n: usize) -> (e: usize)
    requires
        i <= n,
        n == s@.len(),
    ensures
        i <= e <= n,
        e == space_end(s@, i as int),
{
    let mut e = i;
    while e < n
        invariant
            i <= e <= n,
            n == s@.len(),
            forall|j: int| i <= j < e ==> is_qspace(#[trigger] s@[j]),
        decreases n - e,
    {
        let c = s.get_char(e);
        if !(c == ' ' || c == '\t' || c == '\n' || c == '\r') {
            proof {
                lemma_space_end_unique(s@, i as int, e as int);
            }
            return e;
        }
        e = e + 1;
    }
    proof {
        lemma_space_end_unique(s@, i as int, n as int);
    }
    e
}

/// Parses a whole query string: whitespace-separated leaves forming a clause,
/// a single leaf standing alone. Returns exactly what the grammar
/// (`parse_query`) says: `None` when the input does not match it or is not
/// fully consumed.
pub fn query_language(input: &str) -> (r: Option<QueryAST>)
    ensures
        match r {
            Some(ast) => parse_query(input@) == Some(node_view(ast.root)),
            None => parse_query(input@) is None,
        },
{
    let ghost s = input@;
    let n = input.unicode_len();
    let mut subqueries: Vec<QueryNode> = Vec::new();
    let mut i = skip_spaces(input, 0, n);
    let ghost i0 = i as int;
    proof {
        assert(views_of(subqueries@) =~= Seq::<QueryNodeView>::empty());
        assert(Seq::<QueryNodeView>::empty() + leaves_from(s, i0)->Some_0 =~= leaves_from(
            s,
            i0,
        )->Some_0);
    }
    while i < n
        invariant
            i <= n,
            n == s.len(),
            s == input@,
            i0 == space_end(s, 0),
            match leaves_from(s, i as int) {
                None => leaves_from(s, i0) is None,
                Some(rest) => leaves_from(s, i0) == Some(views_of(subqueries@) + rest),
            },
        decreases n - i,
    {
        match parse_leaf(input, i, n) {
            Some((node, e)) => {
                let after = skip_spaces(input, e, n);
                if after == e && e < n {
                    // a leaf must end at a space or the end of the input
                    return None;
                }
                proof {
                    let (v, es) = leaf_at(s, i as int)->Some_0;
                    lemma_views_of_push(subqueries@, node);
                    let rest_after = leaves_from(s, after as int);
                    if rest_after is Some {
                        assert((views_of(subqueries@) + seq![node_view(node)])
                            + rest_after->Some_0 =~= views_of(subqueries@) + (seq![
                            node_view(node),
                        ] + rest_after->Some_0));
                    }
                }
                subqueries.push(node);
                i = after;
            },
            None => {
                return None;
            },
        }
    }
    proof {
        assert(leaves_from(s, i as int) == Some(Seq::<QueryNodeView>::empty()));
        assert(views_of(subqueries@) + Seq::<QueryNodeView>::empty() =~= views_of(subqueries@));
        lemma_views_of_len(subqueries@);
    }
    if subqueries.len() == 1 {
        match subqueries.pop() {
            Some(root) => Some(QueryAST { root }),
            None => None,
        }
    } else {
        Some(QueryAST { root: QueryNode::Clause(subqueries) })
    }
}

} // verus!
