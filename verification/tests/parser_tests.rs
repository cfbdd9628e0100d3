use querycore::query_parser::{query_language, QueryNode};

/// The query written back out, in the shape the grammar reads.
fn repr(node: &QueryNode) -> String {
    match node {
        QueryNode::Literal(lit) => match &lit.field_name {
            Some(f) => format!("{}:\"{}\"", f, lit.phrase),
            None => format!("\"{}\"", lit.phrase),
        },
        QueryNode::Must(inner) => format!("+({})", repr(inner)),
        QueryNode::Not(inner) => format!("-({})", repr(inner)),
        QueryNode::Clause(subs) => {
            let parts: Vec<String> = subs.iter().map(repr).collect();
            parts.join(" ")
        }
    }
}

fn test_parse_query_to_ast_helper(query: &str, expected: &str) {
    let ast = query_language(query).unwrap();
    assert_eq!(repr(&ast.root), expected);
}

#[test]
pub fn test_parse_query_to_ast() {
    test_parse_query_to_ast_helper("abc:toto", "abc:\"toto\"");
    test_parse_query_to_ast_helper("+abc:toto", "+(abc:\"toto\")");
    test_parse_query_to_ast_helper("+abc:toto -titi", "+(abc:\"toto\") -(\"titi\")");
    test_parse_query_to_ast_helper("-abc:toto", "-(abc:\"toto\")");
    test_parse_query_to_ast_helper("abc:a b", "abc:\"a\" \"b\"");
    test_parse_query_to_ast_helper("abc:\"a b\"", "abc:\"a b\"");
}

#[test]
fn test_parse_rejects_malformed() {
    assert!(query_language("abc:").is_none());
    assert!(query_language("+").is_none());
    assert!(query_language("\"unclosed").is_none());
}

#[test]
fn test_parse_whitespace_separators() {
    test_parse_query_to_ast_helper("abc:a\tb", "abc:\"a\" \"b\"");
    test_parse_query_to_ast_helper("abc:a\nb", "abc:\"a\" \"b\"");
    test_parse_query_to_ast_helper("a \t\r\n b", "\"a\" \"b\"");
    test_parse_query_to_ast_helper("  \ttiti  ", "\"titi\"");
}
