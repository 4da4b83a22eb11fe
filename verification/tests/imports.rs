use genco::formatter::Formatter;
use genco::js::import;
use genco::js::Config;
use genco::js::Module;
use genco::js::{self};
use genco::tokens::Tokens;

fn render(t: &Tokens, config: &Config) -> String {
    let mut f = Formatter::new();
    js::format_file(t, &mut f, config);
    f.into_string()
}

#[test]
fn test_alias_distinctness() {
    let a = import(Module::Global(String::from("collections")), String::from("vec"));
    let b = import(Module::Global(String::from("collections")), String::from("vec"))
        .with_alias(String::from("list"));
    let mut t = Tokens::new();
    t.import_ref(a);
    t.push();
    t.import_ref(b);
    let out = render(&t, &Config::default());
    assert_eq!(
        "import {vec, vec as list} from \"collections\";\n\nvec\nlist",
        out
    );
}

#[test]
fn test_default_and_named_grouping() {
    let default_vec = import(
        Module::Global(String::from("collections")),
        String::from("defaultVec"),
    )
    .into_default();
    let all = import(Module::Global(String::from("collections")), String::from("all"))
        .into_wildcard();
    let vec_import = import(Module::Global(String::from("collections")), String::from("vec"));
    let mut t = Tokens::new();
    t.import_ref(default_vec);
    t.push();
    t.import_ref(all);
    t.push();
    t.import_ref(vec_import);
    let out = render(&t, &Config::default());
    assert_eq!(
        "import * as all from \"collections\";\nimport defaultVec, {vec} from \"collections\";\n\ndefaultVec\nall\nvec",
        out
    );
}

#[test]
fn test_wildcard_import() {
    let all = import(Module::Global(String::from("collections")), String::from("all"))
        .into_wildcard();
    let mut t = Tokens::new();
    t.import_ref(all);
    let out = render(&t, &Config::default());
    assert_eq!("import * as all from \"collections\";\n\nall", out);
}

#[test]
fn test_default_import() {
    let default_vec = import(
        Module::Global(String::from("collections")),
        String::from("defaultVec"),
    )
    .into_default();
    let mut t = Tokens::new();
    t.import_ref(default_vec);
    let out = render(&t, &Config::default());
    assert_eq!("import defaultVec from \"collections\";\n\ndefaultVec", out);
}

#[test]
fn test_idempotent_dedup() {
    let a = import(Module::Global(String::from("collections")), String::from("vec"));
    let b = import(Module::Global(String::from("collections")), String::from("vec"));
    let mut t = Tokens::new();
    t.import_ref(a);
    t.push();
    t.import_ref(b);
    let out = render(&t, &Config::default());
    assert_eq!("import {vec} from \"collections\";\n\nvec\nvec", out);
}

#[test]
fn test_path_relativization() {
    let foo1 = import(Module::Path(String::from("foo/bar.js")), String::from("Foo1"));
    let foo2 = import(Module::Path(String::from("foo/bar.js")), String::from("Foo2"));
    let react = import(Module::Global(String::from("react")), String::from("React"))
        .into_default();
    let mut t = Tokens::new();
    t.import_ref(foo1);
    t.push();
    t.import_ref(foo2);
    t.push();
    t.import_ref(react);
    let config = Config::default().with_module_path(String::from("foo/baz.js"));
    let out = render(&t, &config);
    assert_eq!(
        "import {Foo1, Foo2} from \"../bar.js\";\nimport React from \"react\";\n\nFoo1\nFoo2\nReact",
        out
    );
}

#[test]
fn test_unconfigured_path_kept_verbatim() {
    let foo = import(Module::Path(String::from("foo/bar.js")), String::from("Foo"));
    let mut t = Tokens::new();
    t.import_ref(foo);
    let out = render(&t, &Config::default());
    assert_eq!("import {Foo} from \"foo/bar.js\";\n\nFoo", out);
}

#[test]
fn test_no_import_passthrough() {
    let mut t = Tokens::new();
    t.append(String::from("hello"));
    let out = render(&t, &Config::default());
    assert_eq!("hello", out);
}

#[test]
fn test_registration_order_irrelevant_for_header() {
    let mut t1 = Tokens::new();
    t1.import_ref(import(Module::Global(String::from("b")), String::from("y")));
    t1.push();
    t1.import_ref(import(Module::Global(String::from("a")), String::from("x")));
    let mut t2 = Tokens::new();
    t2.import_ref(import(Module::Global(String::from("a")), String::from("x")));
    t2.push();
    t2.import_ref(import(Module::Global(String::from("b")), String::from("y")));
    let out1 = render(&t1, &Config::default());
    let out2 = render(&t2, &Config::default());
    let header1 = out1.split("\n\n").next().unwrap();
    let header2 = out2.split("\n\n").next().unwrap();
    assert_eq!(header1, header2);
    assert_eq!("import {x} from \"a\";\nimport {y} from \"b\";", header1);
}

#[test]
fn test_default_conflict_last_registration_wins() {
    let first = import(Module::Global(String::from("m")), String::from("first")).into_default();
    let second = import(Module::Global(String::from("m")), String::from("second")).into_default();
    let mut t = Tokens::new();
    t.import_ref(first);
    t.push();
    t.import_ref(second);
    let out = render(&t, &Config::default());
    assert_eq!("import second from \"m\";\n\nfirst\nsecond", out);
}

#[test]
fn test_import_inside_interpolation_collected() {
    let vec_import = import(Module::Global(String::from("collections")), String::from("vec"));
    let mut sub = Tokens::new();
    sub.import_ref(vec_import);
    let mut t = Tokens::new();
    t.quoted(vec![genco::tokens::Segment::Eval(sub)]);
    let out = render(&t, &Config::default());
    assert_eq!("import {vec} from \"collections\";\n\n`${vec}`", out);
}
