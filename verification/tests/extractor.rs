use context_engine::imports::get_imports;

#[test]
fn python_from_import_returns_module_path() {
    let imports = get_imports("m.py", "from pkg.sub import x\n");
    assert_eq!(imports, vec!["pkg.sub".to_string()]);
}

#[test]
fn javascript_require_returns_unquoted_argument() {
    let imports = get_imports("m.js", "const u = require('./util');\n");
    assert_eq!(imports, vec!["./util".to_string()]);
}

#[test]
fn python_plain_import_lists_each_dotted_name() {
    let imports = get_imports("m.py", "import os, sys\n");
    assert_eq!(imports, vec!["os".to_string(), "sys".to_string()]);
}

#[test]
fn python_aliased_import_keeps_qualified_name() {
    let imports = get_imports("m.py", "import numpy as np\n");
    assert_eq!(imports, vec!["numpy".to_string()]);
}

#[test]
fn typescript_import_statement_strips_quotes() {
    let imports = get_imports("m.ts", "import { a } from \"./mod\";\n");
    assert_eq!(imports, vec!["./mod".to_string()]);
}

#[test]
fn duplicates_and_order_are_preserved() {
    let imports = get_imports("m.py", "import os\nfrom os import path\nimport os\n");
    assert_eq!(
        imports,
        vec!["os".to_string(), "os".to_string(), "os".to_string()]
    );
}

#[test]
fn jsx_files_use_the_typescript_grammar() {
    let imports = get_imports("m.jsx", "import React from 'react';\n");
    assert_eq!(imports, vec!["react".to_string()]);
}

#[test]
fn unsupported_extension_yields_empty_list() {
    assert_eq!(get_imports("m.txt", "import os\n"), Vec::<String>::new());
}
