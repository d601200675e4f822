use crate::token::Token;
use crate::token::wf_tokens;
use vstd::prelude::*;
use vstd::string::StringExecFns;

verus! {

/// The kind byte reserved for syntax-tree node types the table does not
/// know: new grammar productions degrade to it instead of failing.
pub const UNKNOWN_KIND: u8 = 215;

/// Why a source file produced no token stream.
#[derive(Clone, Copy, Debug, PartialEq, Eq, Structural)]
pub enum TokenizeError {
    /// The parser produced no syntax tree: the grammar did not load, or
    /// parsing the content was refused.
    Parse,
}

/// Whether parsing a text with the bundled Python grammar yields a syntax
/// tree. The grammar is fixed at build time and the parser runs with no
/// cancellation or timeout, so the outcome depends on the text alone.
pub uninterp spec fn python_parse_ok(content: Seq<char>) -> bool;

/// One leaf of the parse tree, as plain values: the node type's name, the
/// node's spelling in the source, and its 0-based start position.
#[derive(Clone, Debug)]
pub struct Leaf {
    pub kind_name: String,
    pub spelling: String,
    pub row: usize,
    pub column: usize,
}

pub open spec fn leaf_view(l: Leaf) -> (Seq<char>, Seq<char>, int, int) {
    (l.kind_name@, l.spelling@, l.row as int, l.column as int)
}

/// The leaves of the parse tree of a text under the bundled Python grammar,
/// in walk order, each as (node-type name, spelling, row, column). The
/// grammar is fixed at build time and the parse is deterministic, so the
/// leaf list depends on the text alone.
pub uninterp spec fn python_leaves_of(content: Seq<char>) -> Seq<(Seq<char>, Seq<char>, int, int)>;

#[verifier::external_type_specification]
#[verifier::external_body]
pub struct ExTree(tree_sitter::Tree);

/// What a syntax tree holds over a text: its leaves in walk order, each as
/// (node-type name, the text's slice at the leaf's byte range, row,
/// column) — a function of the tree and the text alone.
pub uninterp spec fn tree_leaf_data(tree: tree_sitter::Tree, content: Seq<char>) -> Seq<
    (Seq<char>, Seq<char>, int, int),
>;

/// Relies on tree_sitter::Parser::new, Parser::set_language with
/// tree_sitter_python::LANGUAGE, and Parser::parse. set_language fails only
/// on a static version mismatch of the two crates, and parse, with a
/// language set and no cancellation or timeout, is a deterministic function
/// of the text, so the outcome is the named one and the returned tree holds
/// the text's own leaves.
#[verifier::external_body]
fn parse_python(content: &str) -> (r: Option<tree_sitter::Tree>)
    ensures
        r is Some <==> python_parse_ok(content@),
        match r {
            Some(tree) => tree_leaf_data(tree, content@) == python_leaves_of(content@),
            None => true,
        },
{
    let mut parser = tree_sitter::Parser::new();
    parser.set_language(&tree_sitter_python::LANGUAGE.into()).ok()?;
    parser.parse(content, None)
}

/// Relies on Tree::root_node and the TreeCursor walk with
/// Node::{child_count, kind, byte_range, start_position}: hand the tree's
/// leaves out as plain values, in walk order. A spelling falls back to
/// empty rather than index out of the text, so no input can make it panic.
#[verifier::external_body]
fn leaves_of(tree: &tree_sitter::Tree, content: &str) -> (r: Vec<Leaf>)
    ensures
        r@.len() == tree_leaf_data(*tree, content@).len(),
        forall|i: int|
            0 <= i < r@.len() ==> leaf_view(#[trigger] r@[i]) == tree_leaf_data(*tree, content@)[i],
{
    let mut out = Vec::new();
    let mut cursor = tree.root_node().walk();
    loop {
        let node = cursor.node();
        if node.child_count() == 0 {
            let text = content.as_bytes().get(node.byte_range()).and_then(|b| core::str::from_utf8(b).ok()).unwrap_or("").to_string();
            out.push(Leaf { kind_name: node.kind().to_string(), spelling: text, row: node.start_position().row, column: node.start_position().column });
        }
        if cursor.goto_first_child() { continue; }
        while !cursor.goto_next_sibling() { if !cursor.goto_parent() { return out; } }
    }
}

fn str_eq(s: &String, lit: &str) -> (r: bool)
    ensures
        r == (s@ == lit@),
{
    let other = String::from_str(lit);
    s.eq(&other)
}

/// The kind table as a function of the node type's name.
#[verifier::opaque]
pub open spec fn kind_spec(s: Seq<char>) -> u8 {
    if s == "__future__"@ {
        0
    } else if s == "_"@ {
        1
    } else if s == "_compound_statement"@ {
        2
    } else if s == "_simple_statement"@ {
        3
    } else if s == "-"@ {
        4
    } else if s == "-="@ {
        5
    } else if s == "->"@ {
        6
    } else if s == ","@ {
        7
    } else if s == ";"@ {
        8
    } else if s == ":"@ {
        9
    } else if s == ":="@ {
        10
    } else if s == "!="@ {
        11
    } else if s == "."@ {
        12
    } else if s == "("@ {
        13
    } else if s == ")"@ {
        14
    } else if s == "["@ {
        15
    } else if s == "]"@ {
        16
    } else if s == "{"@ {
        17
    } else if s == "}"@ {
        18
    } else if s == "@"@ {
        19
    } else if s == "@="@ {
        20
    } else if s == "*"@ {
        21
    } else if s == "**"@ {
        22
    } else if s == "**="@ {
        23
    } else if s == "*="@ {
        24
    } else if s == "/"@ {
        25
    } else if s == "//"@ {
        26
    } else if s == "//="@ {
        27
    } else if s == "/="@ {
        28
    } else if s == "&"@ {
        29
    } else if s == "&="@ {
        30
    } else if s == "%"@ {
        31
    } else if s == "%="@ {
        32
    } else if s == "^"@ {
        33
    } else if s == "^="@ {
        34
    } else if s == "+"@ {
        35
    } else if s == "+="@ {
        36
    } else if s == "<"@ {
        37
    } else if s == "<<"@ {
        38
    } else if s == "<<="@ {
        39
    } else if s == "<="@ {
        40
    } else if s == "<>"@ {
        41
    } else if s == "="@ {
        42
    } else if s == "=="@ {
        43
    } else if s == ">"@ {
        44
    } else if s == ">="@ {
        45
    } else if s == ">>"@ {
        46
    } else if s == ">>="@ {
        47
    } else if s == "|"@ {
        48
    } else if s == "|="@ {
        49
    } else if s == "~"@ {
        50
    } else if s == "aliased_import"@ {
        51
    } else if s == "and"@ {
        52
    } else if s == "argument_list"@ {
        53
    } else if s == "as_pattern_target"@ {
        54
    } else if s == "as_pattern"@ {
        55
    } else if s == "as"@ {
        56
    } else if s == "assert_statement"@ {
        57
    } else if s == "assert"@ {
        58
    } else if s == "assignment"@ {
        59
    } else if s == "async"@ {
        60
    } else if s == "attribute"@ {
        61
    } else if s == "augmented_assignment"@ {
        62
    } else if s == "await"@ {
        63
    } else if s == "binary_operator"@ {
        64
    } else if s == "block"@ {
        65
    } else if s == "boolean_operator"@ {
        66
    } else if s == "break_statement"@ {
        67
    } else if s == "break"@ {
        68
    } else if s == "call"@ {
        69
    } else if s == "case_clause"@ {
        70
    } else if s == "case_pattern"@ {
        71
    } else if s == "case"@ {
        72
    } else if s == "chevron"@ {
        73
    } else if s == "class_definition"@ {
        74
    } else if s == "class_pattern"@ {
        75
    } else if s == "class"@ {
        76
    } else if s == "comparison_operator"@ {
        78
    } else if s == "complex_pattern"@ {
        79
    } else if s == "concatenated_string"@ {
        80
    } else if s == "conditional_expression"@ {
        81
    } else if s == "constrained_type"@ {
        82
    } else if s == "continue_statement"@ {
        83
    } else if s == "continue"@ {
        84
    } else if s == "decorated_definition"@ {
        85
    } else if s == "decorator"@ {
        86
    } else if s == "def"@ {
        87
    } else if s == "default_parameter"@ {
        88
    } else if s == "del"@ {
        89
    } else if s == "delete_statement"@ {
        90
    } else if s == "dict_pattern"@ {
        91
    } else if s == "dictionary_comprehension"@ {
        92
    } else if s == "dictionary_splat_pattern"@ {
        93
    } else if s == "dictionary_splat"@ {
        94
    } else if s == "dictionary"@ {
        95
    } else if s == "dotted_name"@ {
        96
    } else if s == "elif_clause"@ {
        97
    } else if s == "elif"@ {
        98
    } else if s == "ellipsis"@ {
        99
    } else if s == "else_clause"@ {
        100
    } else if s == "else"@ {
        101
    } else if s == "escape_interpolation"@ {
        102
    } else if s == "escape_sequence"@ {
        103
    } else if s == "except_clause"@ {
        104
    } else if s == "except_group_clause"@ {
        105
    } else if s == "except"@ {
        106
    } else if s == "except*"@ {
        107
    } else if s == "exec_statement"@ {
        108
    } else if s == "exec"@ {
        109
    } else if s == "expression_list"@ {
        110
    } else if s == "expression_statement"@ {
        111
    } else if s == "expression"@ {
        112
    } else if s == "false"@ {
        113
    } else if s == "finally_clause"@ {
        114
    } else if s == "finally"@ {
        115
    } else if s == "float"@ {
        116
    } else if s == "for_in_clause"@ {
        117
    } else if s == "for_statement"@ {
        118
    } else if s == "for"@ {
        119
    } else if s == "format_expression"@ {
        120
    } else if s == "format_specifier"@ {
        121
    } else if s == "from"@ {
        122
    } else if s == "function_definition"@ {
        123
    } else if s == "future_import_statement"@ {
        124
    } else if s == "generator_expression"@ {
        125
    } else if s == "generic_type"@ {
        126
    } else if s == "global_statement"@ {
        127
    } else if s == "global"@ {
        128
    } else if s == "identifier"@ {
        129
    } else if s == "if_clause"@ {
        130
    } else if s == "if_statement"@ {
        131
    } else if s == "if"@ {
        132
    } else if s == "import_from_statement"@ {
        133
    } else if s == "import_prefix"@ {
        134
    } else if s == "import_statement"@ {
        135
    } else if s == "import"@ {
        136
    } else if s == "in"@ {
        137
    } else if s == "integer"@ {
        138
    } else if s == "interpolation"@ {
        139
    } else if s == "is not"@ {
        140
    } else if s == "is"@ {
        141
    } else if s == "keyword_argument"@ {
        142
    } else if s == "keyword_pattern"@ {
        143
    } else if s == "keyword_separator"@ {
        144
    } else if s == "lambda_parameters"@ {
        145
    } else if s == "lambda"@ {
        146
    } else if s == "line_continuation"@ {
        147
    } else if s == "list_comprehension"@ {
        148
    } else if s == "list_pattern"@ {
        149
    } else if s == "list_splat_pattern"@ {
        150
    } else if s == "list_splat"@ {
        151
    } else if s == "list"@ {
        152
    } else if s == "match_statement"@ {
        153
    } else if s == "match"@ {
        154
    } else if s == "member_type"@ {
        155
    } else if s == "module"@ {
        156
    } else if s == "named_expression"@ {
        157
    } else if s == "none"@ {
        158
    } else if s == "nonlocal_statement"@ {
        159
    } else if s == "nonlocal"@ {
        160
    } else if s == "not in"@ {
        161
    } else if s == "not_operator"@ {
        162
    } else if s == "not"@ {
        163
    } else if s == "or"@ {
        164
    } else if s == "pair"@ {
        165
    } else if s == "parameter"@ {
        166
    } else if s == "parameters"@ {
        167
    } else if s == "parenthesized_expression"@ {
        168
    } else if s == "parenthesized_list_splat"@ {
        169
    } else if s == "pass_statement"@ {
        170
    } else if s == "pass"@ {
        171
    } else if s == "pattern_list"@ {
        172
    } else if s == "pattern"@ {
        173
    } else if s == "positional_separator"@ {
        174
    } else if s == "primary_expression"@ {
        175
    } else if s == "print_statement"@ {
        176
    } else if s == "print"@ {
        177
    } else if s == "raise_statement"@ {
        178
    } else if s == "raise"@ {
        179
    } else if s == "relative_import"@ {
        180
    } else if s == "return_statement"@ {
        181
    } else if s == "return"@ {
        182
    } else if s == "set_comprehension"@ {
        183
    } else if s == "set"@ {
        184
    } else if s == "slice"@ {
        185
    } else if s == "splat_pattern"@ {
        186
    } else if s == "splat_type"@ {
        187
    } else if s == "string_content"@ {
        188
    } else if s == "string_end"@ {
        189
    } else if s == "string_start"@ {
        190
    } else if s == "string"@ {
        191
    } else if s == "subscript"@ {
        192
    } else if s == "true"@ {
        193
    } else if s == "try_statement"@ {
        194
    } else if s == "try"@ {
        195
    } else if s == "tuple_pattern"@ {
        196
    } else if s == "tuple"@ {
        197
    } else if s == "type_alias_statement"@ {
        198
    } else if s == "type_conversion"@ {
        199
    } else if s == "type_parameter"@ {
        200
    } else if s == "type"@ {
        201
    } else if s == "typed_default_parameter"@ {
        202
    } else if s == "typed_parameter"@ {
        203
    } else if s == "unary_operator"@ {
        204
    } else if s == "union_pattern"@ {
        205
    } else if s == "union_type"@ {
        206
    } else if s == "while_statement"@ {
        207
    } else if s == "while"@ {
        208
    } else if s == "wildcard_import"@ {
        209
    } else if s == "with_clause"@ {
        210
    } else if s == "with_item"@ {
        211
    } else if s == "with_statement"@ {
        212
    } else if s == "with"@ {
        213
    } else if s == "yield"@ {
        214
    } else {
        UNKNOWN_KIND
    }
}

/// The fixed mapping from a syntax-tree node type to its kind byte. Every
/// name the grammar can produce gets its own small integer; anything else
/// falls to the unknown sentinel, so the mapping never fails.
#[verifier::rlimit(100)]
pub fn kind_of(s: &String) -> (r: u8)
    ensures
        r == kind_spec(s@),
        r <= UNKNOWN_KIND,
{
    proof {
        reveal(kind_spec);
    }
    if str_eq(s, "__future__") {
        0
    } else if str_eq(s, "_") {
        1
    } else if str_eq(s, "_compound_statement") {
        2
    } else if str_eq(s, "_simple_statement") {
        3
    } else if str_eq(s, "-") {
        4
    } else if str_eq(s, "-=") {
        5
    } else if str_eq(s, "->") {
        6
    } else if str_eq(s, ",") {
        7
    } else if str_eq(s, ";") {
        8
    } else if str_eq(s, ":") {
        9
    } else if str_eq(s, ":=") {
        10
    } else if str_eq(s, "!=") {
        11
    } else if str_eq(s, ".") {
        12
    } else if str_eq(s, "(") {
        13
    } else if str_eq(s, ")") {
        14
    } else if str_eq(s, "[") {
        15
    } else if str_eq(s, "]") {
        16
    } else if str_eq(s, "{") {
        17
    } else if str_eq(s, "}") {
        18
    } else if str_eq(s, "@") {
        19
    } else if str_eq(s, "@=") {
        20
    } else if str_eq(s, "*") {
        21
    } else if str_eq(s, "**") {
        22
    } else if str_eq(s, "**=") {
        23
    } else if str_eq(s, "*=") {
        24
    } else if str_eq(s, "/") {
        25
    } else if str_eq(s, "//") {
        26
    } else if str_eq(s, "//=") {
        27
    } else if str_eq(s, "/=") {
        28
    } else if str_eq(s, "&") {
        29
    } else if str_eq(s, "&=") {
        30
    } else if str_eq(s, "%") {
        31
    } else if str_eq(s, "%=") {
        32
    } else if str_eq(s, "^") {
        33
    } else if str_eq(s, "^=") {
        34
    } else if str_eq(s, "+") {
        35
    } else if str_eq(s, "+=") {
        36
    } else if str_eq(s, "<") {
        37
    } else if str_eq(s, "<<") {
        38
    } else if str_eq(s, "<<=") {
        39
    } else if str_eq(s, "<=") {
        40
    } else if str_eq(s, "<>") {
        41
    } else if str_eq(s, "=") {
        42
    } else if str_eq(s, "==") {
        43
    } else if str_eq(s, ">") {
        44
    } else if str_eq(s, ">=") {
        45
    } else if str_eq(s, ">>") {
        46
    } else if str_eq(s, ">>=") {
        47
    } else if str_eq(s, "|") {
        48
    } else if str_eq(s, "|=") {
        49
    } else if str_eq(s, "~") {
        50
    } else if str_eq(s, "aliased_import") {
        51
    } else if str_eq(s, "and") {
        52
    } else if str_eq(s, "argument_list") {
        53
    } else if str_eq(s, "as_pattern_target") {
        54
    } else if str_eq(s, "as_pattern") {
        55
    } else if str_eq(s, "as") {
        56
    } else if str_eq(s, "assert_statement") {
        57
    } else if str_eq(s, "assert") {
        58
    } else if str_eq(s, "assignment") {
        59
    } else if str_eq(s, "async") {
        60
    } else if str_eq(s, "attribute") {
        61
    } else if str_eq(s, "augmented_assignment") {
        62
    } else if str_eq(s, "await") {
        63
    } else if str_eq(s, "binary_operator") {
        64
    } else if str_eq(s, "block") {
        65
    } else if str_eq(s, "boolean_operator") {
        66
    } else if str_eq(s, "break_statement") {
        67
    } else if str_eq(s, "break") {
        68
    } else if str_eq(s, "call") {
        69
    } else if str_eq(s, "case_clause") {
        70
    } else if str_eq(s, "case_pattern") {
        71
    } else if str_eq(s, "case") {
        72
    } else if str_eq(s, "chevron") {
        73
    } else if str_eq(s, "class_definition") {
        74
    } else if str_eq(s, "class_pattern") {
        75
    } else if str_eq(s, "class") {
        76
    } else if str_eq(s, "comparison_operator") {
        78
    } else if str_eq(s, "complex_pattern") {
        79
    } else if str_eq(s, "concatenated_string") {
        80
    } else if str_eq(s, "conditional_expression") {
        81
    } else if str_eq(s, "constrained_type") {
        82
    } else if str_eq(s, "continue_statement") {
        83
    } else if str_eq(s, "continue") {
        84
    } else if str_eq(s, "decorated_definition") {
        85
    } else if str_eq(s, "decorator") {
        86
    } else if str_eq(s, "def") {
        87
    } else if str_eq(s, "default_parameter") {
        88
    } else if str_eq(s, "del") {
        89
    } else if str_eq(s, "delete_statement") {
        90
    } else if str_eq(s, "dict_pattern") {
        91
    } else if str_eq(s, "dictionary_comprehension") {
        92
    } else if str_eq(s, "dictionary_splat_pattern") {
        93
    } else if str_eq(s, "dictionary_splat") {
        94
    } else if str_eq(s, "dictionary") {
        95
    } else if str_eq(s, "dotted_name") {
        96
    } else if str_eq(s, "elif_clause") {
        97
    } else if str_eq(s, "elif") {
        98
    } else if str_eq(s, "ellipsis") {
        99
    } else if str_eq(s, "else_clause") {
        100
    } else if str_eq(s, "else") {
        101
    } else if str_eq(s, "escape_interpolation") {
        102
    } else if str_eq(s, "escape_sequence") {
        103
    } else if str_eq(s, "except_clause") {
        104
    } else if str_eq(s, "except_group_clause") {
        105
    } else if str_eq(s, "except") {
        106
    } else if str_eq(s, "except*") {
        107
    } else if str_eq(s, "exec_statement") {
        108
    } else if str_eq(s, "exec") {
        109
    } else if str_eq(s, "expression_list") {
        110
    } else if str_eq(s, "expression_statement") {
        111
    } else if str_eq(s, "expression") {
        112
    } else if str_eq(s, "false") {
        113
    } else if str_eq(s, "finally_clause") {
        114
    } else if str_eq(s, "finally") {
        115
    } else if str_eq(s, "float") {
        116
    } else if str_eq(s, "for_in_clause") {
        117
    } else if str_eq(s, "for_statement") {
        118
    } else if str_eq(s, "for") {
        119
    } else if str_eq(s, "format_expression") {
        120
    } else if str_eq(s, "format_specifier") {
        121
    } else if str_eq(s, "from") {
        122
    } else if str_eq(s, "function_definition") {
        123
    } else if str_eq(s, "future_import_statement") {
        124
    } else if str_eq(s, "generator_expression") {
        125
    } else if str_eq(s, "generic_type") {
        126
    } else if str_eq(s, "global_statement") {
        127
    } else if str_eq(s, "global") {
        128
    } else if str_eq(s, "identifier") {
        129
    } else if str_eq(s, "if_clause") {
        130
    } else if str_eq(s, "if_statement") {
        131
    } else if str_eq(s, "if") {
        132
    } else if str_eq(s, "import_from_statement") {
        133
    } else if str_eq(s, "import_prefix") {
        134
    } else if str_eq(s, "import_statement") {
        135
    } else if str_eq(s, "import") {
        136
    } else if str_eq(s, "in") {
        137
    } else if str_eq(s, "integer") {
        138
    } else if str_eq(s, "interpolation") {
        139
    } else if str_eq(s, "is not") {
        140
    } else if str_eq(s, "is") {
        141
    } else if str_eq(s, "keyword_argument") {
        142
    } else if str_eq(s, "keyword_pattern") {
        143
    } else if str_eq(s, "keyword_separator") {
        144
    } else if str_eq(s, "lambda_parameters") {
        145
    } else if str_eq(s, "lambda") {
        146
    } else if str_eq(s, "line_continuation") {
        147
    } else if str_eq(s, "list_comprehension") {
        148
    } else if str_eq(s, "list_pattern") {
        149
    } else if str_eq(s, "list_splat_pattern") {
        150
    } else if str_eq(s, "list_splat") {
        151
    } else if str_eq(s, "list") {
        152
    } else if str_eq(s, "match_statement") {
        153
    } else if str_eq(s, "match") {
        154
    } else if str_eq(s, "member_type") {
        155
    } else if str_eq(s, "module") {
        156
    } else if str_eq(s, "named_expression") {
        157
    } else if str_eq(s, "none") {
        158
    } else if str_eq(s, "nonlocal_statement") {
        159
    } else if str_eq(s, "nonlocal") {
        160
    } else if str_eq(s, "not in") {
        161
    } else if str_eq(s, "not_operator") {
        162
    } else if str_eq(s, "not") {
        163
    } else if str_eq(s, "or") {
        164
    } else if str_eq(s, "pair") {
        165
    } else if str_eq(s, "parameter") {
        166
    } else if str_eq(s, "parameters") {
        167
    } else if str_eq(s, "parenthesized_expression") {
        168
    } else if str_eq(s, "parenthesized_list_splat") {
        169
    } else if str_eq(s, "pass_statement") {
        170
    } else if str_eq(s, "pass") {
        171
    } else if str_eq(s, "pattern_list") {
        172
    } else if str_eq(s, "pattern") {
        173
    } else if str_eq(s, "positional_separator") {
        174
    } else if str_eq(s, "primary_expression") {
        175
    } else if str_eq(s, "print_statement") {
        176
    } else if str_eq(s, "print") {
        177
    } else if str_eq(s, "raise_statement") {
        178
    } else if str_eq(s, "raise") {
        179
    } else if str_eq(s, "relative_import") {
        180
    } else if str_eq(s, "return_statement") {
        181
    } else if str_eq(s, "return") {
        182
    } else if str_eq(s, "set_comprehension") {
        183
    } else if str_eq(s, "set") {
        184
    } else if str_eq(s, "slice") {
        185
    } else if str_eq(s, "splat_pattern") {
        186
    } else if str_eq(s, "splat_type") {
        187
    } else if str_eq(s, "string_content") {
        188
    } else if str_eq(s, "string_end") {
        189
    } else if str_eq(s, "string_start") {
        190
    } else if str_eq(s, "string") {
        191
    } else if str_eq(s, "subscript") {
        192
    } else if str_eq(s, "true") {
        193
    } else if str_eq(s, "try_statement") {
        194
    } else if str_eq(s, "try") {
        195
    } else if str_eq(s, "tuple_pattern") {
        196
    } else if str_eq(s, "tuple") {
        197
    } else if str_eq(s, "type_alias_statement") {
        198
    } else if str_eq(s, "type_conversion") {
        199
    } else if str_eq(s, "type_parameter") {
        200
    } else if str_eq(s, "type") {
        201
    } else if str_eq(s, "typed_default_parameter") {
        202
    } else if str_eq(s, "typed_parameter") {
        203
    } else if str_eq(s, "unary_operator") {
        204
    } else if str_eq(s, "union_pattern") {
        205
    } else if str_eq(s, "union_type") {
        206
    } else if str_eq(s, "while_statement") {
        207
    } else if str_eq(s, "while") {
        208
    } else if str_eq(s, "wildcard_import") {
        209
    } else if str_eq(s, "with_clause") {
        210
    } else if str_eq(s, "with_item") {
        211
    } else if str_eq(s, "with_statement") {
        212
    } else if str_eq(s, "with") {
        213
    } else if str_eq(s, "yield") {
        214
    } else {
        UNKNOWN_KIND
    }
}

pub open spec fn token_view(t: Token) -> (u8, Seq<char>, u32, u32) {
    (t.kind, t.spelling@, t.line, t.column)
}

/// The plain values of a token stream, in order.
pub open spec fn token_views(tokens: Seq<Token>) -> Seq<(u8, Seq<char>, u32, u32)> {
    tokens.map(|_k: int, t: Token| token_view(t))
}

/// The token stream a leaf list yields: comment leaves are dropped, every
/// other leaf becomes one token with its kind from the table, its spelling,
/// and its 1-based position clamped by `leaf_line` and `leaf_column`.
pub open spec fn tokens_from(leaves: Seq<(Seq<char>, Seq<char>, int, int)>) -> Seq<
    (u8, Seq<char>, u32, u32),
>
    decreases leaves.len(),
{
    if leaves.len() == 0 {
        Seq::empty()
    } else {
        let prev = tokens_from(leaves.drop_last());
        let l = leaves.last();
        if l.0 == "comment"@ {
            prev
        } else {
            let last_line = if prev.len() == 0 {
                1u32
            } else {
                prev.last().2
            };
            let last_col = if prev.len() == 0 {
                1u32
            } else {
                prev.last().3
            };
            let line = leaf_line(l.2, last_line);
            let column = leaf_column(l.3, line, last_line, last_col, prev.len() == 0);
            prev.push((kind_spec(l.0), l.1, line, column))
        }
    }
}

proof fn lemma_tokens_from_step(leaves: Seq<(Seq<char>, Seq<char>, int, int)>, n: int)
    requires
        0 <= n < leaves.len(),
    ensures
        tokens_from(leaves.take(n + 1)) == ({
            let prev = tokens_from(leaves.take(n));
            let l = leaves[n];
            if l.0 == "comment"@ {
                prev
            } else {
                let last_line = if prev.len() == 0 {
                    1u32
                } else {
                    prev.last().2
                };
                let last_col = if prev.len() == 0 {
                    1u32
                } else {
                    prev.last().3
                };
                let line = leaf_line(l.2, last_line);
                let column = leaf_column(l.3, line, last_line, last_col, prev.len() == 0);
                prev.push((kind_spec(l.0), l.1, line, column))
            }
        }),
{
    assert(leaves.take(n + 1).drop_last() =~= leaves.take(n));
    assert(leaves.take(n + 1).last() == leaves[n]);
    assert(leaves.take(n + 1).len() == n + 1);
}

/// The guarantees every token stream of the tokenizer gives its callers:
/// positions are 1-based, kinds stay inside the table's space, and the
/// stream invariant holds — lines never decrease, and neither do columns
/// within a line.
pub open spec fn tokens_ok(tokens: Seq<Token>) -> bool {
    &&& wf_tokens(tokens)
    &&& forall|i: int|
        0 <= i < tokens.len() ==> (#[trigger] tokens[i]).kind <= UNKNOWN_KIND
            && tokens[i].line >= 1 && tokens[i].column >= 1
    &&& forall|i: int|
        0 <= i && i + 1 < tokens.len() ==> ((#[trigger] tokens[i]).line < tokens[i + 1].line || (
        tokens[i].line == tokens[i + 1].line && tokens[i].column <= tokens[i + 1].column))
}

/// The 1-based line a leaf's 0-based row yields: clamped up to the last
/// line seen, so the stream invariant never rests on the parser.
pub open spec fn leaf_line(row: int, last_line: u32) -> u32 {
    let raw = if row < 0xffff_ffff {
        (row + 1) as u32
    } else {
        0xffff_ffffu32
    };
    if raw < last_line {
        last_line
    } else {
        raw
    }
}

/// The 1-based column a leaf's 0-based column yields: clamped up to the
/// last column seen when the token stays on the last line.
pub open spec fn leaf_column(col: int, line: u32, last_line: u32, last_col: u32, first: bool) -> u32 {
    let raw = if col < 0xffff_ffff {
        (col + 1) as u32
    } else {
        0xffff_ffffu32
    };
    if !first && line == last_line && raw < last_col {
        last_col
    } else {
        raw
    }
}

/// Compute a leaf's 1-based clamped position.
fn leaf_position(row: usize, col: usize, last_line: u32, last_col: u32, first: bool) -> (r: (
    u32,
    u32,
))
    ensures
        r.0 == leaf_line(row as int, last_line),
        r.1 == leaf_column(col as int, leaf_line(row as int, last_line), last_line, last_col, first),
{
    let line_raw: u32 = if row < 0xffff_ffff {
        (row + 1) as u32
    } else {
        0xffff_ffff
    };
    let column_raw: u32 = if col < 0xffff_ffff {
        (col + 1) as u32
    } else {
        0xffff_ffff
    };
    let line: u32 = if line_raw < last_line {
        last_line
    } else {
        line_raw
    };
    let column: u32 = if !first && line == last_line && column_raw < last_col {
        last_col
    } else {
        column_raw
    };
    (line, column)
}

/// Append the token one leaf yields: exactly the given kind and spelling at
/// the leaf's 1-based position, clamped by `leaf_line` and `leaf_column`.
#[verifier::rlimit(100)]
#[verifier::spinoff_prover]
pub fn push_token(
    tokens: &mut Vec<Token>,
    last_line: &mut u32,
    last_col: &mut u32,
    kind: u8,
    spelling: String,
    row: usize,
    col: usize,
)
    requires
        kind <= UNKNOWN_KIND,
        *old(last_line) >= 1,
        tokens_ok(old(tokens)@),
        forall|i: int|
            0 <= i < old(tokens)@.len() ==> (#[trigger] old(tokens)@[i]).line <= *old(last_line),
        old(tokens)@.len() > 0 ==> old(tokens)@.last().line == *old(last_line)
            && old(tokens)@.last().column == *old(last_col),
    ensures
        tokens_ok(final(tokens)@),
        *final(last_line) >= 1,
        forall|i: int|
            0 <= i < final(tokens)@.len() ==> (#[trigger] final(tokens)@[i]).line
                <= *final(last_line),
        final(tokens)@.len() > 0 ==> final(tokens)@.last().line == *final(last_line)
            && final(tokens)@.last().column == *final(last_col),
        final(tokens)@.len() == old(tokens)@.len() + 1,
        final(tokens)@.subrange(0, old(tokens)@.len() as int) == old(tokens)@,
        final(tokens)@.last().kind == kind,
        final(tokens)@.last().spelling == spelling,
        final(tokens)@.last().line == leaf_line(row as int, *old(last_line)),
        final(tokens)@.last().column == leaf_column(
            col as int,
            leaf_line(row as int, *old(last_line)),
            *old(last_line),
            *old(last_col),
            old(tokens)@.len() == 0,
        ),
        *final(last_line) == final(tokens)@.last().line,
        *final(last_col) == final(tokens)@.last().column,
{
    // the parser hands out positions in walk order; clamping keeps the
    // stream invariant independent of that
    let first = tokens.len() == 0;
    let (line, column) = leaf_position(row, col, *last_line, *last_col, first);
    let ghost pre = tokens@;
    let t = Token { kind, spelling, line, column };
    let ghost newt = t;
    tokens.push(t);
    proof {
        assert(tokens@.subrange(0, pre.len() as int) =~= pre);
        assert forall|i: int, j: int| 0 <= i <= j < tokens@.len() implies (
        #[trigger] tokens@[i]).line <= (#[trigger] tokens@[j]).line by {
            if j < pre.len() {
                assert(tokens@[i] == pre[i]);
                assert(tokens@[j] == pre[j]);
            } else if i < pre.len() {
                assert(tokens@[i] == pre[i]);
            }
        }
        assert forall|i: int| 0 <= i && i + 1 < tokens@.len() implies ((
        #[trigger] tokens@[i]).line < tokens@[i + 1].line || (tokens@[i].line == tokens@[i
            + 1].line && tokens@[i].column <= tokens@[i + 1].column)) by {
            if i + 1 < pre.len() {
                assert(tokens@[i] == pre[i]);
                assert(tokens@[i + 1] == pre[i + 1]);
            } else {
                assert(tokens@[i] == pre[i]);
                assert(pre[i] == pre.last());
                assert(tokens@[i + 1] == newt);
            }
        }
    }
    *last_line = line;
    *last_col = column;
}

pub open spec fn leaf_views(leaves: Seq<Leaf>) -> Seq<(Seq<char>, Seq<char>, int, int)> {
    leaves.map(|_k: int, l: Leaf| leaf_view(l))
}

/// Turn a leaf list into its token stream: exactly `tokens_from` of the
/// leaves' values.
#[verifier::rlimit(100)]
fn build_tokens(leaves: &Vec<Leaf>) -> (tokens: Vec<Token>)
    ensures
        tokens_ok(tokens@),
        token_views(tokens@) == tokens_from(leaf_views(leaves@)),
{
    let ghost lm = leaf_views(leaves@);
    let mut tokens: Vec<Token> = Vec::new();
    let mut last_line: u32 = 1;
    let mut last_col: u32 = 1;
    let mut i: usize = 0;
    proof {
        assert(lm.take(0) =~= Seq::<(Seq<char>, Seq<char>, int, int)>::empty());
        assert(token_views(tokens@) =~= tokens_from(lm.take(0)));
    }
    while i < leaves.len()
        invariant
            lm == leaf_views(leaves@),
            lm.len() == leaves@.len(),
            i <= leaves@.len(),
            tokens_ok(tokens@),
            last_line >= 1,
            forall|k: int| 0 <= k < tokens@.len() ==> (#[trigger] tokens@[k]).line <= last_line,
            tokens@.len() > 0 ==> tokens@.last().line == last_line && tokens@.last().column
                == last_col,
            tokens@.len() == 0 ==> last_line == 1 && last_col == 1,
            token_views(tokens@) == tokens_from(lm.take(i as int)),
        decreases leaves@.len() - i,
    {
        let ghost pre = tokens@;
        let is_comment = str_eq(&leaves[i].kind_name, "comment");
        proof {
            assert(lm[i as int] == leaf_view(leaves@[i as int]));
        }
        if !is_comment {
            let kind = kind_of(&leaves[i].kind_name);
            let spelling = leaves[i].spelling.clone();
            push_token(&mut tokens, &mut last_line, &mut last_col, kind, spelling, leaves[i].row,
                leaves[i].column);
        }
        i += 1;
        proof {
            lemma_tokens_from_step(lm, i - 1);
            if is_comment {
                assert(lm[i - 1].0 == "comment"@);
                assert(token_views(tokens@) =~= tokens_from(lm.take(i as int)));
            } else {
                assert(lm[i - 1].0 != "comment"@);
                assert(token_views(tokens@) =~= tokens_from(lm.take(i as int))) by {
                    assert(tokens@ == pre.push(tokens@.last()));
                    assert forall|k: int| 0 <= k < tokens@.len() implies #[trigger] token_views(
                        tokens@,
                    )[k] == tokens_from(lm.take(i as int))[k] by {
                        assert(token_views(tokens@)[k] == token_view(tokens@[k]));
                        if k < pre.len() {
                            assert(tokens@[k] == pre[k]);
                            assert(token_views(pre)[k] == tokens_from(lm.take(i - 1))[k]);
                            assert(token_views(pre)[k] == token_view(pre[k]));
                        }
                    }
                }
            }
        }
    }
    proof {
        assert(lm.take(lm.len() as int) =~= lm);
    }
    tokens
}

/// Tokenize Python source: parse it and turn every non-comment leaf of the
/// syntax tree, in walk order, into one token — its kind from the fixed
/// table, its spelling, and its 1-based position, clamped so the stream
/// invariant never rests on the parser. The result is exactly
/// `tokens_from` of the parse's leaf list, so equal contents give equal
/// streams, and identifier spellings, literal values and comments change
/// the kind sequence only as far as they change the tree's leaf names.
/// Succeeds exactly when the parse does.
pub fn tokenize_str(content: &str) -> (r: Result<Vec<Token>, TokenizeError>)
    ensures
        r is Ok <==> python_parse_ok(content@),
        match r {
            Ok(tokens) => tokens_ok(tokens@) && token_views(tokens@) == tokens_from(
                python_leaves_of(content@),
            ),
            Err(e) => e == TokenizeError::Parse,
        },
{
    let tree = match parse_python(content) {
        Some(t) => t,
        None => {
            return Err(TokenizeError::Parse);
        },
    };
    let leaves = leaves_of(&tree, content);
    proof {
        assert(leaf_views(leaves@) =~= python_leaves_of(content@));
    }
    let tokens = build_tokens(&leaves);
    Ok(tokens)
}

/// The Python-family tokenizer.
pub struct Python;

impl Python {
    /// Tokenize one source text with the Python grammar.
    pub fn tokenize_str(&self, content: &str) -> (r: Result<Vec<Token>, TokenizeError>)
        ensures
            r is Ok <==> python_parse_ok(content@),
            match r {
                Ok(tokens) => tokens_ok(tokens@) && token_views(tokens@) == tokens_from(
                    python_leaves_of(content@),
                ),
                Err(e) => e == TokenizeError::Parse,
            },
    {
        tokenize_str(content)
    }
}

} // verus!
