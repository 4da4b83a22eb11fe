//! JavaScript language backend: quoting and escaping rules, the import
//! statement grammar, module path resolution, and the renderer that drives a
//! full pass over a token stream.
//!
//! Rendering a file first walks the stream to collect every import
//! reference, deduplicates and groups them into a sorted header, then emits
//! the header followed by the body through one [`Formatter`].

use crate::formatter::FmtState;
use crate::formatter::Formatter;
use crate::formatter::fmt_indent;
use crate::formatter::fmt_new_line;
use crate::formatter::fmt_new_line_unless_empty;
use crate::formatter::fmt_unindent;
use crate::formatter::fmt_write;
use crate::tokens::Item;
use crate::tokens::Segment;
use crate::tokens::Tokens;
use crate::tokens::items_imports;
use vstd::prelude::*;

verus! {

/// Format state for JavaScript; the language keeps none.
pub struct Format {}

/// The kind of an import reference.
#[derive(Clone, Copy, PartialEq, Eq, Structural)]
pub enum ImportKind {
    /// `import {name} from ...` or `import {name as alias} from ...`.
    Named,
    /// `import name from ...`.
    Default,
    /// `import * as name from ...`.
    Wildcard,
}

/// A module being imported: either a path to a generated file, relativized
/// against the configured module path, or a global module identifier,
/// emitted as given.
pub enum Module {
    /// A module imported from a specific path.
    Path(String),
    /// A globally imported module.
    Global(String),
}

/// Ghost model of a [`Module`].
pub ghost enum ModuleModel {
    /// A path to a generated file.
    Path(Seq<char>),
    /// A global module identifier.
    Global(Seq<char>),
}

impl View for Module {
    type V = ModuleModel;

    open spec fn view(&self) -> ModuleModel {
        match self {
            Module::Path(p) => ModuleModel::Path(p@),
            Module::Global(g) => ModuleModel::Global(g@),
        }
    }
}

impl DeepView for Module {
    type V = ModuleModel;

    open spec fn deep_view(&self) -> ModuleModel {
        self.view()
    }
}

impl Clone for Module {
    /// Clones keep the value.
    fn clone(&self) -> (r: Self)
        ensures
            r == *self,
    {
        match self {
            Module::Path(p) => Module::Path(p.clone()),
            Module::Global(g) => Module::Global(g.clone()),
        }
    }
}

/// Ghost model of an [`Import`].
pub ghost struct ImportModel {
    /// The kind of the import.
    pub kind: ImportKind,
    /// Module of the imported name.
    pub module: ModuleModel,
    /// Name imported.
    pub name: Seq<char>,
    /// Alias the name is bound to, for named imports.
    pub alias: Option<Seq<char>>,
}

/// An imported item, created through the [`import`] function.
pub struct Import {
    /// The kind of the import.
    kind: ImportKind,
    /// Module of the imported name.
    module: Module,
    /// Name imported.
    name: String,
    /// Alias of the imported item, rendered as `name as alias`.
    alias: Option<String>,
}

impl View for Import {
    type V = ImportModel;

    closed spec fn view(&self) -> ImportModel {
        ImportModel {
            kind: self.kind,
            module: self.module@,
            name: self.name@,
            alias: self.alias.deep_view(),
        }
    }
}

impl DeepView for Import {
    type V = ImportModel;

    open spec fn deep_view(&self) -> ImportModel {
        self.view()
    }
}

impl Clone for Import {
    /// Clones keep the value.
    fn clone(&self) -> (r: Self)
        ensures
            r == *self,
    {
        Import {
            kind: self.kind,
            module: self.module.clone(),
            name: self.name.clone(),
            alias: match &self.alias {
                Some(a) => Some(a.clone()),
                None => None,
            },
        }
    }
}

/// Import a name from a module, as a named import without alias.
pub fn import(module: Module, name: String) -> (i: Import)
    ensures
        i@ == (ImportModel {
            kind: ImportKind::Named,
            module: module@,
            name: name@,
            alias: None,
        }),
{
    Import { kind: ImportKind::Named, module, name, alias: None }
}

impl Import {
    /// Change the alias of the imported item; this implies that the import
    /// is a named import.
    pub fn with_alias(self, alias: String) -> (i: Import)
        ensures
            i@ == (ImportModel { kind: ImportKind::Named, alias: Some(alias@), ..self@ }),
    {
        Import { kind: ImportKind::Named, alias: Some(alias), ..self }
    }

    /// Convert into a default import.
    pub fn into_default(self) -> (i: Import)
        ensures
            i@ == (ImportModel { kind: ImportKind::Default, alias: None, ..self@ }),
    {
        Import { kind: ImportKind::Default, alias: None, ..self }
    }

    /// Convert into a wildcard import.
    pub fn into_wildcard(self) -> (i: Import)
        ensures
            i@ == (ImportModel { kind: ImportKind::Wildcard, alias: None, ..self@ }),
    {
        Import { kind: ImportKind::Wildcard, alias: None, ..self }
    }
}

/// Configuration for a render: the path of the module being rendered, if
/// any, against which path imports are relativized.
pub struct Config {
    /// The path to the current module.
    current: Option<String>,
}

impl View for Config {
    type V = Option<Seq<char>>;

    closed spec fn view(&self) -> Option<Seq<char>> {
        self.current.deep_view()
    }
}

impl Default for Config {
    /// The default configuration has no module path: path imports are
    /// emitted as given.
    fn default() -> (c: Config)
        ensures
            c@ == None::<Seq<char>>,
    {
        Config { current: None }
    }
}

impl Config {
    /// Configure the path of the module being rendered, so that importing
    /// from a path resolves relative to it.
    pub fn with_module_path(self, path: String) -> (c: Config)
        ensures
            c@ == Some(path@),
    {
        Config { current: Some(path) }
    }
}

/// The escape table: how one character of a quoted literal is emitted.
/// Tab, bell, newline, carriage return, shift-out, both quote characters and
/// the backslash map to their escape sequences; every other character passes
/// through unchanged.
pub open spec fn escape_char(c: char) -> Seq<char> {
    if c == '\t' {
        "\\t"@
    } else if c == '\u{0007}' {
        "\\b"@
    } else if c == '\n' {
        "\\n"@
    } else if c == '\r' {
        "\\r"@
    } else if c == '\u{0014}' {
        "\\f"@
    } else if c == '\'' {
        "\\'"@
    } else if c == '"' {
        "\\\""@
    } else if c == '\\' {
        "\\\\"@
    } else {
        seq![c]
    }
}

/// The escape table applied to every character of a text.
pub open spec fn escape_text(t: Seq<char>) -> Seq<char>
    decreases t.len(),
{
    if t.len() == 0 {
        Seq::empty()
    } else {
        escape_text(t.drop_last()) + escape_char(t.last())
    }
}

/// A character outside the escape table passes through unchanged.
pub proof fn lemma_escape_passthrough(c: char)
    requires
        c != '\t',
        c != '\u{0007}',
        c != '\n',
        c != '\r',
        c != '\u{0014}',
        c != '\'',
        c != '"',
        c != '\\',
    ensures
        escape_char(c) == seq![c],
{
}

/// Relies on `String::push`: appends the given character to the string.
#[verifier::external_body]
fn push_char(s: &mut String, c: char)
    ensures
        final(s)@ == old(s)@.push(c),
{
    s.push(c);
}

/// Apply the escape table to every character of `text`.
fn escape_str(text: &str) -> (r: String)
    ensures
        r@ == escape_text(text@),
{
    let mut r = String::new();
    let n = text.unicode_len();
    let mut k: usize = 0;
    proof {
        assert(escape_text(text@.subrange(0, 0)) =~= Seq::<char>::empty());
    }
    while k < n
        invariant
            n == text@.len(),
            k <= n,
            r@ == escape_text(text@.subrange(0, k as int)),
        decreases n - k,
    {
        let ghost prefix = text@.subrange(0, k as int);
        let c = text.get_char(k);
        if c == '\t' {
            r.append("\\t");
        } else if c == '\u{0007}' {
            r.append("\\b");
        } else if c == '\n' {
            r.append("\\n");
        } else if c == '\r' {
            r.append("\\r");
        } else if c == '\u{0014}' {
            r.append("\\f");
        } else if c == '\'' {
            r.append("\\'");
        } else if c == '"' {
            r.append("\\\"");
        } else if c == '\\' {
            r.append("\\\\");
        } else {
            push_char(&mut r, c);
            proof {
                assert(escape_text(prefix).push(c) =~= escape_text(prefix) + seq![c]);
            }
        }
        proof {
            assert(text@.subrange(0, k as int + 1).drop_last() =~= prefix);
            assert(text@.subrange(0, k as int + 1).last() == text@[k as int]);
        }
        k = k + 1;
    }
    proof {
        assert(text@.subrange(0, text@.len() as int) =~= text@);
    }
    r
}

/// The quote around a string literal: a template-literal backtick when the
/// literal holds interpolation regions, a plain double quote otherwise.
pub open spec fn quote_mark(interpolated: bool) -> Seq<char> {
    if interpolated {
        "`"@
    } else {
        "\""@
    }
}

/// Whether any segment of a quoted literal is an interpolation region.
pub open spec fn has_eval(segs: Seq<Segment>) -> bool {
    exists|k: int| 0 <= k < segs.len() && segs[k] is Eval
}

/// The locally bound name an import reference renders as in the body: the
/// alias of a named import if it has one, the imported name otherwise.
pub open spec fn import_ref_text(i: ImportModel) -> Seq<char> {
    match i.kind {
        ImportKind::Named => match i.alias {
            Some(a) => a,
            None => i.name,
        },
        _ => i.name,
    }
}

/// Effect of emitting one item.
pub open spec fn render_item(s: FmtState, it: Item) -> FmtState
    decreases it,
{
    match it {
        Item::Literal(t) => fmt_write(s, t@),
        Item::Push => fmt_new_line_unless_empty(s),
        Item::Line => fmt_new_line(fmt_new_line_unless_empty(s)),
        Item::Space => fmt_write(s, " "@),
        Item::Indent => fmt_indent(s),
        Item::Unindent => fmt_unindent(s),
        Item::Scope(t) => render_items(s, t.items@),
        Item::Quoted(segs) => fmt_write(
            render_segments(fmt_write(s, quote_mark(has_eval(segs@))), segs@),
            quote_mark(has_eval(segs@)),
        ),
        Item::ImportRef(i) => fmt_write(s, import_ref_text(i@)),
    }
}

/// Effect of emitting a sequence of items, in insertion order.
pub open spec fn render_items(s: FmtState, items: Seq<Item>) -> FmtState
    decreases items,
{
    if items.len() == 0 {
        s
    } else {
        render_item(render_items(s, items.drop_last()), items.last())
    }
}

/// Effect of emitting a quoted literal: the opening quote, each segment, and
/// the closing quote.
pub open spec fn render_quoted(s: FmtState, segs: Seq<Segment>) -> FmtState {
    fmt_write(
        render_segments(fmt_write(s, quote_mark(has_eval(segs))), segs),
        quote_mark(has_eval(segs)),
    )
}

/// Effect of emitting the segments of a quoted literal, in order.
pub open spec fn render_segments(s: FmtState, segs: Seq<Segment>) -> FmtState
    decreases segs,
{
    if segs.len() == 0 {
        s
    } else {
        render_segment(render_segments(s, segs.drop_last()), segs.last())
    }
}

/// Effect of emitting one segment: raw text passes through the escape
/// table; an interpolation region is rendered recursively between the
/// interpolation delimiters, with escaping suspended.
pub open spec fn render_segment(s: FmtState, seg: Segment) -> FmtState
    decreases seg,
{
    match seg {
        Segment::Raw(t) => fmt_write(s, escape_text(t@)),
        Segment::Eval(t) => fmt_write(render_items(fmt_write(s, "${"@), t.items@), "}"@),
    }
}

/// Start a string quote.
pub fn open_quote(fmt: &mut Formatter, interpolated: bool)
    ensures
        final(fmt).mdl() == fmt_write(old(fmt).mdl(), quote_mark(interpolated)),
{
    if interpolated {
        fmt.write_str("`");
    } else {
        fmt.write_str("\"");
    }
}

/// End a string quote.
pub fn close_quote(fmt: &mut Formatter, interpolated: bool)
    ensures
        final(fmt).mdl() == fmt_write(old(fmt).mdl(), quote_mark(interpolated)),
{
    if interpolated {
        fmt.write_str("`");
    } else {
        fmt.write_str("\"");
    }
}

/// Open the delimiter of an interpolation region inside a quoted literal.
pub fn begin_interpolation(fmt: &mut Formatter)
    ensures
        final(fmt).mdl() == fmt_write(old(fmt).mdl(), "${"@),
{
    fmt.write_str("${");
}

/// Close the delimiter of an interpolation region.
pub fn end_interpolation(fmt: &mut Formatter)
    ensures
        final(fmt).mdl() == fmt_write(old(fmt).mdl(), "}"@),
{
    fmt.write_str("}");
}

/// Emit the body of a stream through the formatter, in insertion order.
pub fn format(fmt: &mut Formatter, tokens: &Tokens)
    ensures
        final(fmt).mdl() == render_items(old(fmt).mdl(), tokens.items@),
{
    format_items(fmt, &tokens.items);
}

/// Emit a sequence of items.
fn format_items(fmt: &mut Formatter, items: &Vec<Item>)
    ensures
        final(fmt).mdl() == render_items(old(fmt).mdl(), items@),
    decreases items@,
{
    let ghost s0 = fmt.mdl();
    let mut k: usize = 0;
    while k < items.len()
        invariant
            k <= items@.len(),
            fmt.mdl() == render_items(s0, items@.subrange(0, k as int)),
        decreases items@.len() - k,
    {
        proof {
            assert(decreases_to!(items@ => items@[k as int]));
        }
        format_item(fmt, &items[k]);
        proof {
            assert(items@.subrange(0, k as int + 1).drop_last() =~= items@.subrange(0, k as int));
            assert(items@.subrange(0, k as int + 1).last() == items@[k as int]);
        }
        k = k + 1;
    }
    proof {
        assert(items@.subrange(0, items@.len() as int) =~= items@);
    }
}

/// Emit one item.
fn format_item(fmt: &mut Formatter, it: &Item)
    ensures
        final(fmt).mdl() == render_item(old(fmt).mdl(), *it),
    decreases *it,
{
    match it {
        Item::Literal(t) => {
            fmt.write_str(t.as_str());
        },
        Item::Push => {
            fmt.new_line_unless_empty();
        },
        Item::Line => {
            fmt.new_line_unless_empty();
            fmt.new_line();
        },
        Item::Space => {
            fmt.write_str(" ");
        },
        Item::Indent => {
            fmt.indent();
        },
        Item::Unindent => {
            fmt.unindent();
        },
        Item::Scope(t) => {
            proof {
                assert(decreases_to!(*it => *t));
                assert(decreases_to!(*t => t.items));
                assert(decreases_to!(t.items => t.items@));
            }
            format_items(fmt, &t.items);
        },
        Item::Quoted(segs) => {
            proof {
                assert(decreases_to!(*it => *segs));
                assert(decreases_to!(*segs => segs@));
            }
            format_quoted(fmt, segs);
        },
        Item::ImportRef(i) => {
            let name: &String = match (i.kind, &i.alias) {
                (ImportKind::Named, Some(a)) => a,
                _ => &i.name,
            };
            proof {
                assert(name@ == import_ref_text(i@));
            }
            fmt.write_str(name.as_str());
        },
    }
}

/// Whether any segment is an interpolation region.
fn contains_eval(segs: &Vec<Segment>) -> (r: bool)
    ensures
        r == has_eval(segs@),
{
    let n = segs.len();
    let mut k: usize = 0;
    while k < n
        invariant
            k <= n,
            n == segs@.len(),
            forall|j: int| 0 <= j < k ==> !(segs@[j] is Eval),
        decreases n - k,
    {
        let found = match &segs[k] {
            Segment::Eval(_) => true,
            _ => false,
        };
        if found {
            proof {
                assert(segs@[k as int] is Eval);
            }
            return true;
        }
        k = k + 1;
    }
    false
}

/// Emit a quoted literal.
fn format_quoted(fmt: &mut Formatter, segs: &Vec<Segment>)
    ensures
        final(fmt).mdl() == render_quoted(old(fmt).mdl(), segs@),
    decreases segs@,
{
    let he = contains_eval(segs);
    open_quote(fmt, he);
    let ghost s1 = fmt.mdl();
    let mut k: usize = 0;
    while k < segs.len()
        invariant
            k <= segs@.len(),
            he == has_eval(segs@),
            s1 == fmt_write(old(fmt).mdl(), quote_mark(has_eval(segs@))),
            fmt.mdl() == render_segments(s1, segs@.subrange(0, k as int)),
        decreases segs@.len() - k,
    {
        let ghost prev = fmt.mdl();
        match &segs[k] {
            Segment::Raw(t) => {
                let esc = escape_str(t.as_str());
                fmt.write_str(esc.as_str());
                proof {
                    assert(segs@[k as int] == Segment::Raw(*t));
                    assert(fmt.mdl() == render_segment(prev, segs@[k as int]));
                }
            },
            Segment::Eval(t) => {
                proof {
                    assert(decreases_to!(segs@ => segs@[k as int]));
                    assert(decreases_to!(segs@[k as int] => *t));
                    assert(decreases_to!(*t => t.items));
                    assert(decreases_to!(t.items => t.items@));
                }
                begin_interpolation(fmt);
                format_items(fmt, &t.items);
                end_interpolation(fmt);
                proof {
                    assert(segs@[k as int] == Segment::Eval(*t));
                    assert(fmt.mdl() == render_segment(prev, segs@[k as int]));
                }
            },
        }
        proof {
            assert(segs@.subrange(0, k as int + 1).drop_last() =~= segs@.subrange(0, k as int));
            assert(segs@.subrange(0, k as int + 1).last() == segs@[k as int]);
        }
        k = k + 1;
    }
    proof {
        assert(segs@.subrange(0, segs@.len() as int) =~= segs@);
    }
    close_quote(fmt, he);
}

/// Lexicographic order on texts, by character code.
pub open spec fn str_lt(a: Seq<char>, b: Seq<char>) -> bool
    decreases a.len(),
{
    if b.len() == 0 {
        false
    } else if a.len() == 0 {
        true
    } else if (a[0] as u32) < (b[0] as u32) {
        true
    } else if (b[0] as u32) < (a[0] as u32) {
        false
    } else {
        str_lt(a.drop_first(), b.drop_first())
    }
}

/// Order on modules: path modules come before global modules, and modules
/// of the same kind are ordered lexicographically.
pub open spec fn module_lt(a: ModuleModel, b: ModuleModel) -> bool {
    match (a, b) {
        (ModuleModel::Path(x), ModuleModel::Path(y)) => str_lt(x, y),
        (ModuleModel::Path(_), ModuleModel::Global(_)) => true,
        (ModuleModel::Global(_), ModuleModel::Path(_)) => false,
        (ModuleModel::Global(x), ModuleModel::Global(y)) => str_lt(x, y),
    }
}

/// A named-import entry: the imported name with its optional alias.
#[verifier::ext_equal]
pub ghost struct NamedModel {
    /// The imported name.
    pub name: Seq<char>,
    /// The alias it is bound to, if any.
    pub alias: Option<Seq<char>>,
}

/// Order on named entries: plain entries come before aliased ones, entries
/// of the same shape are ordered by name and then by alias.
pub open spec fn named_lt(a: NamedModel, b: NamedModel) -> bool {
    match (a.alias, b.alias) {
        (Option::None, Option::None) => str_lt(a.name, b.name),
        (Option::None, Option::Some(_)) => true,
        (Option::Some(_), Option::None) => false,
        (Option::Some(x), Option::Some(y)) => str_lt(a.name, b.name) || (a.name == b.name
            && str_lt(x, y)),
    }
}

/// A wildcard registration: a module and the name its namespace is bound to.
#[verifier::ext_equal]
pub ghost struct WildModel {
    /// The imported module.
    pub module: ModuleModel,
    /// The name the namespace is bound to.
    pub name: Seq<char>,
}

/// Order on wildcard registrations: by module, then by bound name.
pub open spec fn wild_lt(a: WildModel, b: WildModel) -> bool {
    module_lt(a.module, b.module) || (a.module == b.module && str_lt(a.name, b.name))
}

/// Everything registered against one module: the default import, if any,
/// and the deduplicated named entries in sorted order.
#[verifier::ext_equal]
pub ghost struct ModuleEntryModel {
    /// The module the entries belong to.
    pub module: ModuleModel,
    /// The default import bound for this module, if any.
    pub default_import: Option<Seq<char>>,
    /// The named entries, strictly sorted by [`named_lt`].
    pub named: Seq<NamedModel>,
}

/// The aggregate a render builds from the registered imports: wildcard
/// registrations and per-module entries, each strictly sorted.
#[verifier::ext_equal]
pub ghost struct ResolutionModel {
    /// The wildcard registrations, strictly sorted by [`wild_lt`].
    pub wildcards: Seq<WildModel>,
    /// The per-module entries, strictly sorted by module.
    pub modules: Seq<ModuleEntryModel>,
}

/// The resolution with nothing registered.
pub open spec fn empty_resolution() -> ResolutionModel {
    ResolutionModel { wildcards: Seq::empty(), modules: Seq::empty() }
}

/// Insert a wildcard registration at its sorted position; registering an
/// already present entry changes nothing.
pub open spec fn insert_wild(ws: Seq<WildModel>, w: WildModel) -> Seq<WildModel>
    decreases ws.len(),
{
    if ws.len() == 0 {
        seq![w]
    } else if w == ws[0] {
        ws
    } else if wild_lt(w, ws[0]) {
        seq![w] + ws
    } else {
        seq![ws[0]] + insert_wild(ws.drop_first(), w)
    }
}

/// Insert a named entry at its sorted position; registering an already
/// present entry changes nothing.
pub open spec fn insert_named(es: Seq<NamedModel>, e: NamedModel) -> Seq<NamedModel>
    decreases es.len(),
{
    if es.len() == 0 {
        seq![e]
    } else if e == es[0] {
        es
    } else if named_lt(e, es[0]) {
        seq![e] + es
    } else {
        seq![es[0]] + insert_named(es.drop_first(), e)
    }
}

/// A fresh module entry with nothing registered.
pub open spec fn fresh_entry(m: ModuleModel) -> ModuleEntryModel {
    ModuleEntryModel { module: m, default_import: None, named: Seq::empty() }
}

/// Register a named entry against a module, creating the module entry at
/// its sorted position if it is not present yet.
pub open spec fn reg_named(ms: Seq<ModuleEntryModel>, m: ModuleModel, e: NamedModel) -> Seq<
    ModuleEntryModel,
>
    decreases ms.len(),
{
    if ms.len() == 0 {
        seq![ModuleEntryModel { named: seq![e], ..fresh_entry(m) }]
    } else if m == ms[0].module {
        seq![ModuleEntryModel { named: insert_named(ms[0].named, e), ..ms[0] }] + ms.drop_first()
    } else if module_lt(m, ms[0].module) {
        seq![ModuleEntryModel { named: seq![e], ..fresh_entry(m) }] + ms
    } else {
        seq![ms[0]] + reg_named(ms.drop_first(), m, e)
    }
}

/// Register a default import against a module, creating the module entry at
/// its sorted position if it is not present yet.  A later registration for
/// the same module replaces an earlier one: the last registration wins.
pub open spec fn reg_default(ms: Seq<ModuleEntryModel>, m: ModuleModel, name: Seq<char>) -> Seq<
    ModuleEntryModel,
>
    decreases ms.len(),
{
    if ms.len() == 0 {
        seq![ModuleEntryModel { default_import: Some(name), ..fresh_entry(m) }]
    } else if m == ms[0].module {
        seq![ModuleEntryModel { default_import: Some(name), ..ms[0] }] + ms.drop_first()
    } else if module_lt(m, ms[0].module) {
        seq![ModuleEntryModel { default_import: Some(name), ..fresh_entry(m) }] + ms
    } else {
        seq![ms[0]] + reg_default(ms.drop_first(), m, name)
    }
}

/// Register one import according to its kind.
pub open spec fn resolve_step(r: ResolutionModel, i: ImportModel) -> ResolutionModel {
    match i.kind {
        ImportKind::Named => ResolutionModel {
            modules: reg_named(r.modules, i.module, NamedModel { name: i.name, alias: i.alias }),
            ..r
        },
        ImportKind::Default => ResolutionModel {
            modules: reg_default(r.modules, i.module, i.name),
            ..r
        },
        ImportKind::Wildcard => ResolutionModel {
            wildcards: insert_wild(r.wildcards, WildModel { module: i.module, name: i.name }),
            ..r
        },
    }
}

/// Register a sequence of imports, in order, starting from nothing.
pub open spec fn resolve_seq(s: Seq<ImportModel>) -> ResolutionModel
    decreases s.len(),
{
    if s.len() == 0 {
        empty_resolution()
    } else {
        resolve_step(resolve_seq(s.drop_last()), s.last())
    }
}

/// Skipping a common prefix does not change how two texts compare.
proof fn lemma_str_lt_skip(a: Seq<char>, b: Seq<char>, k: int)
    requires
        0 <= k <= a.len(),
        k <= b.len(),
        forall|j: int| 0 <= j < k ==> a[j] == b[j],
    ensures
        str_lt(a, b) == str_lt(a.skip(k), b.skip(k)),
    decreases k,
{
    if k > 0 {
        assert(str_lt(a, b) == str_lt(a.drop_first(), b.drop_first()));
        assert(forall|j: int|
            0 <= j < k - 1 ==> a.drop_first()[j] == b.drop_first()[j]) by {
            assert(forall|j: int|
                0 <= j < k - 1 ==> a.drop_first()[j] == a[j + 1] && b.drop_first()[j] == b[j
                    + 1]);
        }
        lemma_str_lt_skip(a.drop_first(), b.drop_first(), k - 1);
        assert(a.drop_first().skip(k - 1) =~= a.skip(k));
        assert(b.drop_first().skip(k - 1) =~= b.skip(k));
    } else {
        assert(a.skip(0) =~= a);
        assert(b.skip(0) =~= b);
    }
}

/// Three-way comparison of two texts: negative, zero or positive as the
/// first is below, equal to or above the second in [`str_lt`] order.
fn str_cmp(a: &str, b: &str) -> (r: i32)
    ensures
        (r == 0) == (a@ == b@),
        (r < 0) == str_lt(a@, b@),
        (r > 0) == str_lt(b@, a@),
{
    let na = a.unicode_len();
    let nb = b.unicode_len();
    let n = if na < nb { na } else { nb };
    let mut k: usize = 0;
    while k < n
        invariant
            na == a@.len(),
            nb == b@.len(),
            n == if na < nb {
                na
            } else {
                nb
            },
            k <= n,
            forall|j: int| 0 <= j < k ==> a@[j] == b@[j],
        decreases n - k,
    {
        let ca = a.get_char(k) as u32;
        let cb = b.get_char(k) as u32;
        if ca < cb || cb < ca {
            proof {
                lemma_str_lt_skip(a@, b@, k as int);
                lemma_str_lt_skip(b@, a@, k as int);
                assert(a@.skip(k as int)[0] == a@[k as int]);
                assert(b@.skip(k as int)[0] == b@[k as int]);
                assert(a@ != b@);
            }
            if ca < cb {
                return -1;
            }
            return 1;
        }
        proof {
            assert(a@[k as int] == b@[k as int]);
        }
        k = k + 1;
    }
    proof {
        lemma_str_lt_skip(a@, b@, n as int);
        lemma_str_lt_skip(b@, a@, n as int);
    }
    if na == nb {
        proof {
            assert(a@ =~= b@);
        }
        0
    } else if na < nb {
        proof {
            assert(a@ != b@);
        }
        -1
    } else {
        proof {
            assert(a@ != b@);
        }
        1
    }
}

/// Three-way comparison of two modules in [`module_lt`] order.
fn module_cmp(a: &Module, b: &Module) -> (r: i32)
    ensures
        (r == 0) == (a@ == b@),
        (r < 0) == module_lt(a@, b@),
        (r > 0) == module_lt(b@, a@),
{
    match (a, b) {
        (Module::Path(x), Module::Path(y)) => str_cmp(x.as_str(), y.as_str()),
        (Module::Path(_), Module::Global(_)) => -1,
        (Module::Global(_), Module::Path(_)) => 1,
        (Module::Global(x), Module::Global(y)) => str_cmp(x.as_str(), y.as_str()),
    }
}

/// A named-import entry as the resolver stores it.
struct NamedEntry {
    /// The imported name.
    name: String,
    /// The alias it is bound to, if any.
    alias: Option<String>,
}

impl View for NamedEntry {
    type V = NamedModel;

    closed spec fn view(&self) -> NamedModel {
        NamedModel { name: self.name@, alias: self.alias.deep_view() }
    }
}

impl DeepView for NamedEntry {
    type V = NamedModel;

    closed spec fn deep_view(&self) -> NamedModel {
        self.view()
    }
}

/// A wildcard registration as the resolver stores it.
struct WildEntry {
    /// The imported module.
    module: Module,
    /// The name its namespace is bound to.
    name: String,
}

impl View for WildEntry {
    type V = WildModel;

    closed spec fn view(&self) -> WildModel {
        WildModel { module: self.module@, name: self.name@ }
    }
}

impl DeepView for WildEntry {
    type V = WildModel;

    closed spec fn deep_view(&self) -> WildModel {
        self.view()
    }
}

/// Everything registered against one module, as the resolver stores it.
struct ModuleEntry {
    /// The module the entries belong to.
    module: Module,
    /// The default import bound for this module, if any.
    default_import: Option<String>,
    /// The named entries, kept strictly sorted.
    named: Vec<NamedEntry>,
}

impl View for ModuleEntry {
    type V = ModuleEntryModel;

    closed spec fn view(&self) -> ModuleEntryModel {
        ModuleEntryModel {
            module: self.module@,
            default_import: self.default_import.deep_view(),
            named: self.named.deep_view(),
        }
    }
}

impl DeepView for ModuleEntry {
    type V = ModuleEntryModel;

    closed spec fn deep_view(&self) -> ModuleEntryModel {
        self.view()
    }
}

/// The resolver's aggregate, built per render and discarded afterwards.
struct Resolution {
    /// The wildcard registrations, kept strictly sorted.
    wildcards: Vec<WildEntry>,
    /// The per-module entries, kept strictly sorted by module.
    modules: Vec<ModuleEntry>,
}

impl DeepView for Resolution {
    type V = ResolutionModel;

    closed spec fn deep_view(&self) -> ResolutionModel {
        ResolutionModel {
            wildcards: self.wildcards.deep_view(),
            modules: self.modules.deep_view(),
        }
    }
}

/// Three-way comparison of two named entries in [`named_lt`] order.
fn named_cmp(a: &NamedEntry, b: &NamedEntry) -> (r: i32)
    ensures
        (r == 0) == (a.deep_view() == b.deep_view()),
        (r < 0) == named_lt(a.deep_view(), b.deep_view()),
        (r > 0) == named_lt(b.deep_view(), a.deep_view()),
{
    match (&a.alias, &b.alias) {
        (Option::None, Option::None) => str_cmp(a.name.as_str(), b.name.as_str()),
        (Option::None, Option::Some(_)) => -1,
        (Option::Some(_), Option::None) => 1,
        (Option::Some(x), Option::Some(y)) => {
            let c = str_cmp(a.name.as_str(), b.name.as_str());
            if c != 0 {
                c
            } else {
                str_cmp(x.as_str(), y.as_str())
            }
        },
    }
}

/// Three-way comparison of two wildcard registrations in [`wild_lt`] order.
fn wild_cmp(a: &WildEntry, b: &WildEntry) -> (r: i32)
    ensures
        (r == 0) == (a.deep_view() == b.deep_view()),
        (r < 0) == wild_lt(a.deep_view(), b.deep_view()),
        (r > 0) == wild_lt(b.deep_view(), a.deep_view()),
{
    let c = module_cmp(&a.module, &b.module);
    if c != 0 {
        c
    } else {
        str_cmp(a.name.as_str(), b.name.as_str())
    }
}

/// Insert a wildcard registration at its sorted position.
fn insert_wild_entry(ws: &mut Vec<WildEntry>, w: WildEntry)
    ensures
        final(ws).deep_view() == insert_wild(old(ws).deep_view(), w.deep_view()),
{
    let ghost ws0 = old(ws).deep_view();
    let ghost wv = w.deep_view();
    let mut k: usize = 0;
    let mut found: bool = false;
    proof {
        assert(ws0.skip(0) =~= ws0);
        assert(ws0.subrange(0, 0) + insert_wild(ws0, wv) =~= insert_wild(ws0, wv));
    }
    while k < ws.len() && !found
        invariant
            k <= ws@.len(),
            ws@ == old(ws)@,
            ws.deep_view() == ws0,
            ws0.len() == ws@.len(),
            w.deep_view() == wv,
            insert_wild(ws0, wv) == ws0.subrange(0, k as int) + insert_wild(
                ws0.skip(k as int),
                wv,
            ),
            found ==> k < ws0.len() && wv != ws0[k as int] && wild_lt(wv, ws0[k as int]),
        decreases ws@.len() - k + if found {
            0int
        } else {
            1int
        },
    {
        let c = wild_cmp(&w, &ws[k]);
        proof {
            assert(ws0[k as int] == ws[k as int].deep_view());
            assert(ws0.skip(k as int)[0] == ws0[k as int]);
        }
        if c == 0 {
            proof {
                assert(insert_wild(ws0.skip(k as int), wv) == ws0.skip(k as int));
                assert(ws0.subrange(0, k as int) + ws0.skip(k as int) =~= ws0);
            }
            return;
        } else if c < 0 {
            found = true;
        } else {
            proof {
                assert(insert_wild(ws0.skip(k as int), wv) == seq![ws0[k as int]] + insert_wild(
                    ws0.skip(k as int).drop_first(),
                    wv,
                ));
                assert(ws0.skip(k as int).drop_first() =~= ws0.skip(k as int + 1));
                assert(ws0.subrange(0, k as int) + (seq![ws0[k as int]] + insert_wild(
                    ws0.skip(k as int + 1),
                    wv,
                )) =~= ws0.subrange(0, k as int + 1) + insert_wild(ws0.skip(k as int + 1), wv));
            }
            k = k + 1;
        }
    }
    if found {
        proof {
            assert(ws0.skip(k as int)[0] == ws0[k as int]);
            assert(insert_wild(ws0.skip(k as int), wv) == seq![wv] + ws0.skip(k as int));
        }
        ws.insert(k, w);
        proof {
            assert(ws.deep_view() =~= ws0.subrange(0, k as int) + (seq![wv] + ws0.skip(
                k as int,
            )));
        }
    } else {
        proof {
            assert(ws0.skip(ws0.len() as int) =~= Seq::<WildModel>::empty());
        }
        ws.push(w);
        proof {
            assert(ws.deep_view() =~= ws0.subrange(0, ws0.len() as int) + seq![wv]);
        }
    }
}

/// Insert a named entry at its sorted position.
fn insert_named_entry(es: &mut Vec<NamedEntry>, e: NamedEntry)
    ensures
        final(es).deep_view() == insert_named(old(es).deep_view(), e.deep_view()),
{
    let ghost es0 = old(es).deep_view();
    let ghost ev = e.deep_view();
    let mut k: usize = 0;
    let mut found: bool = false;
    proof {
        assert(es0.skip(0) =~= es0);
        assert(es0.subrange(0, 0) + insert_named(es0, ev) =~= insert_named(es0, ev));
    }
    while k < es.len() && !found
        invariant
            k <= es@.len(),
            es@ == old(es)@,
            es.deep_view() == es0,
            es0.len() == es@.len(),
            e.deep_view() == ev,
            insert_named(es0, ev) == es0.subrange(0, k as int) + insert_named(
                es0.skip(k as int),
                ev,
            ),
            found ==> k < es0.len() && ev != es0[k as int] && named_lt(ev, es0[k as int]),
        decreases es@.len() - k + if found {
            0int
        } else {
            1int
        },
    {
        let c = named_cmp(&e, &es[k]);
        proof {
            assert(es0[k as int] == es[k as int].deep_view());
            assert(es0.skip(k as int)[0] == es0[k as int]);
        }
        if c == 0 {
            proof {
                assert(insert_named(es0.skip(k as int), ev) == es0.skip(k as int));
                assert(es0.subrange(0, k as int) + es0.skip(k as int) =~= es0);
            }
            return;
        } else if c < 0 {
            found = true;
        } else {
            proof {
                assert(insert_named(es0.skip(k as int), ev) == seq![es0[k as int]] + insert_named(
                    es0.skip(k as int).drop_first(),
                    ev,
                ));
                assert(es0.skip(k as int).drop_first() =~= es0.skip(k as int + 1));
                assert(es0.subrange(0, k as int) + (seq![es0[k as int]] + insert_named(
                    es0.skip(k as int + 1),
                    ev,
                )) =~= es0.subrange(0, k as int + 1) + insert_named(es0.skip(k as int + 1), ev));
            }
            k = k + 1;
        }
    }
    if found {
        proof {
            assert(es0.skip(k as int)[0] == es0[k as int]);
            assert(insert_named(es0.skip(k as int), ev) == seq![ev] + es0.skip(k as int));
        }
        es.insert(k, e);
        proof {
            assert(es.deep_view() =~= es0.subrange(0, k as int) + (seq![ev] + es0.skip(
                k as int,
            )));
        }
    } else {
        proof {
            assert(es0.skip(es0.len() as int) =~= Seq::<NamedModel>::empty());
        }
        es.push(e);
        proof {
            assert(es.deep_view() =~= es0.subrange(0, es0.len() as int) + seq![ev]);
        }
    }
}


/// Register a named entry against its module, keeping modules sorted.
fn register_named(ms: &mut Vec<ModuleEntry>, module: Module, e: NamedEntry)
    ensures
        final(ms).deep_view() == reg_named(old(ms).deep_view(), module@, e.deep_view()),
{
    let ghost ms0 = old(ms).deep_view();
    let ghost mv = module@;
    let ghost ev = e.deep_view();
    let mut k: usize = 0;
    let mut found_eq: bool = false;
    let mut found_lt: bool = false;
    proof {
        assert(ms0.skip(0) =~= ms0);
        assert(ms0.subrange(0, 0) + reg_named(ms0, mv, ev) =~= reg_named(ms0, mv, ev));
    }
    while k < ms.len() && !found_eq && !found_lt
        invariant
            k <= ms@.len(),
            ms@ == old(ms)@,
            ms.deep_view() == ms0,
            ms0.len() == ms@.len(),
            module@ == mv,
            e.deep_view() == ev,
            reg_named(ms0, mv, ev) == ms0.subrange(0, k as int) + reg_named(
                ms0.skip(k as int),
                mv,
                ev,
            ),
            found_eq ==> k < ms0.len() && mv == ms0[k as int].module,
            found_lt ==> k < ms0.len() && mv != ms0[k as int].module && module_lt(
                mv,
                ms0[k as int].module,
            ),
        decreases ms@.len() - k + if found_eq || found_lt {
            0int
        } else {
            1int
        },
    {
        let c = module_cmp(&module, &ms[k].module);
        proof {
            assert(ms0[k as int] == ms[k as int].deep_view());
            assert(ms0.skip(k as int)[0] == ms0[k as int]);
        }
        if c == 0 {
            found_eq = true;
        } else if c < 0 {
            found_lt = true;
        } else {
            proof {
                assert(reg_named(ms0.skip(k as int), mv, ev) == seq![ms0[k as int]] + reg_named(
                    ms0.skip(k as int).drop_first(),
                    mv,
                    ev,
                ));
                assert(ms0.skip(k as int).drop_first() =~= ms0.skip(k as int + 1));
                assert(ms0.subrange(0, k as int) + (seq![ms0[k as int]] + reg_named(
                    ms0.skip(k as int + 1),
                    mv,
                    ev,
                )) =~= ms0.subrange(0, k as int + 1) + reg_named(ms0.skip(k as int + 1), mv, ev));
            }
            k = k + 1;
        }
    }
    if found_eq {
        proof {
            assert(ms0.skip(k as int)[0] == ms0[k as int]);
            assert(reg_named(ms0.skip(k as int), mv, ev) == seq![
                ModuleEntryModel { named: insert_named(ms0[k as int].named, ev), ..ms0[
                    k as int
                ] },
            ] + ms0.skip(k as int).drop_first());
            assert(ms0.skip(k as int).drop_first() =~= ms0.skip(k as int + 1));
        }
        let mut entry = ms.remove(k);
        proof {
            assert(entry.deep_view() == ms0[k as int]);
        }
        insert_named_entry(&mut entry.named, e);
        proof {
            assert(entry.deep_view() == (ModuleEntryModel {
                named: insert_named(ms0[k as int].named, ev),
                ..ms0[k as int]
            }));
        }
        ms.insert(k, entry);
        proof {
            assert(ms.deep_view() =~= ms0.subrange(0, k as int) + (seq![
                ModuleEntryModel { named: insert_named(ms0[k as int].named, ev), ..ms0[
                    k as int
                ] },
            ] + ms0.skip(k as int + 1)));
        }
    } else {
        let mut named: Vec<NamedEntry> = Vec::new();
        named.push(e);
        let entry = ModuleEntry { module, default_import: None, named };
        proof {
            assert(entry.named.deep_view() =~= seq![ev]);
            assert(entry.deep_view() == (ModuleEntryModel {
                module: mv,
                default_import: None,
                named: seq![ev],
            }));
        }
        if found_lt {
            proof {
                assert(ms0.skip(k as int)[0] == ms0[k as int]);
                assert(reg_named(ms0.skip(k as int), mv, ev) == seq![
                    ModuleEntryModel { module: mv, default_import: None, named: seq![ev] },
                ] + ms0.skip(k as int));
            }
            ms.insert(k, entry);
            proof {
                assert(ms.deep_view() =~= ms0.subrange(0, k as int) + (seq![
                    ModuleEntryModel { module: mv, default_import: None, named: seq![ev] },
                ] + ms0.skip(k as int)));
            }
        } else {
            proof {
                assert(ms0.skip(ms0.len() as int) =~= Seq::<ModuleEntryModel>::empty());
                assert(reg_named(ms0.skip(ms0.len() as int), mv, ev) == seq![
                    ModuleEntryModel { module: mv, default_import: None, named: seq![ev] },
                ]);
            }
            ms.push(entry);
            proof {
                assert(ms.deep_view() =~= ms0.subrange(0, ms0.len() as int) + seq![
                    ModuleEntryModel { module: mv, default_import: None, named: seq![ev] },
                ]);
            }
        }
    }
}

/// Register a default import against its module, keeping modules sorted.
/// The last registration for a module wins.
fn register_default(ms: &mut Vec<ModuleEntry>, module: Module, name: String)
    ensures
        final(ms).deep_view() == reg_default(old(ms).deep_view(), module@, name@),
{
    let ghost ms0 = old(ms).deep_view();
    let ghost mv = module@;
    let ghost nv = name@;
    let mut k: usize = 0;
    let mut found_eq: bool = false;
    let mut found_lt: bool = false;
    proof {
        assert(ms0.skip(0) =~= ms0);
        assert(ms0.subrange(0, 0) + reg_default(ms0, mv, nv) =~= reg_default(ms0, mv, nv));
    }
    while k < ms.len() && !found_eq && !found_lt
        invariant
            k <= ms@.len(),
            ms@ == old(ms)@,
            ms.deep_view() == ms0,
            ms0.len() == ms@.len(),
            module@ == mv,
            name@ == nv,
            reg_default(ms0, mv, nv) == ms0.subrange(0, k as int) + reg_default(
                ms0.skip(k as int),
                mv,
                nv,
            ),
            found_eq ==> k < ms0.len() && mv == ms0[k as int].module,
            found_lt ==> k < ms0.len() && mv != ms0[k as int].module && module_lt(
                mv,
                ms0[k as int].module,
            ),
        decreases ms@.len() - k + if found_eq || found_lt {
            0int
        } else {
            1int
        },
    {
        let c = module_cmp(&module, &ms[k].module);
        proof {
            assert(ms0[k as int] == ms[k as int].deep_view());
            assert(ms0.skip(k as int)[0] == ms0[k as int]);
        }
        if c == 0 {
            found_eq = true;
        } else if c < 0 {
            found_lt = true;
        } else {
            proof {
                assert(reg_default(ms0.skip(k as int), mv, nv) == seq![ms0[k as int]]
                    + reg_default(ms0.skip(k as int).drop_first(), mv, nv));
                assert(ms0.skip(k as int).drop_first() =~= ms0.skip(k as int + 1));
                assert(ms0.subrange(0, k as int) + (seq![ms0[k as int]] + reg_default(
                    ms0.skip(k as int + 1),
                    mv,
                    nv,
                )) =~= ms0.subrange(0, k as int + 1) + reg_default(
                    ms0.skip(k as int + 1),
                    mv,
                    nv,
                ));
            }
            k = k + 1;
        }
    }
    if found_eq {
        proof {
            assert(ms0.skip(k as int)[0] == ms0[k as int]);
            assert(reg_default(ms0.skip(k as int), mv, nv) == seq![
                ModuleEntryModel { default_import: Some(nv), ..ms0[k as int] },
            ] + ms0.skip(k as int).drop_first());
            assert(ms0.skip(k as int).drop_first() =~= ms0.skip(k as int + 1));
        }
        let mut entry = ms.remove(k);
        proof {
            assert(entry.deep_view() == ms0[k as int]);
        }
        entry.default_import = Some(name);
        proof {
            assert(entry.deep_view() == (ModuleEntryModel {
                default_import: Some(nv),
                ..ms0[k as int]
            }));
        }
        ms.insert(k, entry);
        proof {
            assert(ms.deep_view() =~= ms0.subrange(0, k as int) + (seq![
                ModuleEntryModel { default_import: Some(nv), ..ms0[k as int] },
            ] + ms0.skip(k as int + 1)));
        }
    } else {
        let entry = ModuleEntry { module, default_import: Some(name), named: Vec::new() };
        proof {
            assert(entry.named.deep_view() =~= Seq::<NamedModel>::empty());
            assert(entry.deep_view() == (ModuleEntryModel {
                module: mv,
                default_import: Some(nv),
                named: Seq::empty(),
            }));
        }
        if found_lt {
            proof {
                assert(ms0.skip(k as int)[0] == ms0[k as int]);
                assert(reg_default(ms0.skip(k as int), mv, nv) == seq![
                    ModuleEntryModel { module: mv, default_import: Some(nv), named: Seq::empty() },
                ] + ms0.skip(k as int));
            }
            ms.insert(k, entry);
            proof {
                assert(ms.deep_view() =~= ms0.subrange(0, k as int) + (seq![
                    ModuleEntryModel { module: mv, default_import: Some(nv), named: Seq::empty() },
                ] + ms0.skip(k as int)));
            }
        } else {
            proof {
                assert(ms0.skip(ms0.len() as int) =~= Seq::<ModuleEntryModel>::empty());
            }
            ms.push(entry);
            proof {
                assert(ms.deep_view() =~= ms0.subrange(0, ms0.len() as int) + seq![
                    ModuleEntryModel { module: mv, default_import: Some(nv), named: Seq::empty() },
                ]);
            }
        }
    }
}

/// Build the resolution of a collection of imports: classify each by kind
/// and register it, in order.
fn resolve_imports(imports: &Vec<Import>) -> (r: Resolution)
    ensures
        r.deep_view() == resolve_seq(imports.deep_view()),
{
    let ghost iv = imports.deep_view();
    let mut res = Resolution { wildcards: Vec::new(), modules: Vec::new() };
    proof {
        assert(res.deep_view() =~= resolve_seq(iv.subrange(0, 0)));
    }
    let mut k: usize = 0;
    while k < imports.len()
        invariant
            k <= imports@.len(),
            iv == imports.deep_view(),
            iv.len() == imports@.len(),
            res.deep_view() == resolve_seq(iv.subrange(0, k as int)),
        decreases imports@.len() - k,
    {
        let imp = &imports[k];
        proof {
            assert(iv[k as int] == imp.deep_view());
        }
        let ghost before = res.deep_view();
        match imp.kind {
            ImportKind::Named => {
                let e = NamedEntry {
                    name: imp.name.clone(),
                    alias: match &imp.alias {
                        Some(a) => Some(a.clone()),
                        None => None,
                    },
                };
                register_named(&mut res.modules, imp.module.clone(), e);
                proof {
                    assert(res.deep_view() =~= resolve_step(before, iv[k as int]));
                }
            },
            ImportKind::Default => {
                register_default(&mut res.modules, imp.module.clone(), imp.name.clone());
                proof {
                    assert(res.deep_view() =~= resolve_step(before, iv[k as int]));
                }
            },
            ImportKind::Wildcard => {
                let we = WildEntry { module: imp.module.clone(), name: imp.name.clone() };
                insert_wild_entry(&mut res.wildcards, we);
                proof {
                    assert(res.deep_view() =~= resolve_step(before, iv[k as int]));
                }
            },
        }
        proof {
            assert(iv.subrange(0, k as int + 1).drop_last() =~= iv.subrange(0, k as int));
            assert(iv.subrange(0, k as int + 1).last() == iv[k as int]);
        }
        k = k + 1;
    }
    proof {
        assert(iv.subrange(0, iv.len() as int) =~= iv);
    }
    res
}


/// The relative path from the directory of the first path to the second,
/// POSIX-style, as the path resolution of the render computes it.
pub uninterp spec fn relative_of(base: Seq<char>, target: Seq<char>) -> Seq<char>;

/// Relies on `relative_path::RelativePath::relative`: the relative path from
/// the directory named by `base` to `target`, computed by POSIX-style
/// segment resolution; the result is a function of the two path strings
/// alone.
#[verifier::external_body]
fn relative_between(base: &str, target: &str) -> (r: String)
    ensures
        r@ == relative_of(base@, target@),
{
    relative_path::RelativePath::new(base)
        .relative(relative_path::RelativePath::new(target))
        .into_string()
}

/// The text a module reference resolves to, before quoting: a global module
/// is its identifier as given; a path is relativized against the configured
/// module path, or emitted as given when none is configured.
pub open spec fn module_raw_text(m: ModuleModel, cfg: Option<Seq<char>>) -> Seq<char> {
    match m {
        ModuleModel::Global(g) => g,
        ModuleModel::Path(p) => match cfg {
            None => p,
            Some(base) => relative_of(base, p),
        },
    }
}

/// A quoted string: the plain quote around the escaped text.
pub open spec fn quoted_text(t: Seq<char>) -> Seq<char> {
    "\""@ + escape_text(t) + "\""@
}

/// How one named entry renders inside the braces.
pub open spec fn entry_text(e: NamedModel) -> Seq<char> {
    match e.alias {
        None => e.name,
        Some(a) => e.name + " as "@ + a,
    }
}

/// The comma-separated list of named entries.
pub open spec fn named_list_text(es: Seq<NamedModel>) -> Seq<char>
    decreases es.len(),
{
    if es.len() == 0 {
        Seq::empty()
    } else if es.len() == 1 {
        entry_text(es[0])
    } else {
        named_list_text(es.drop_last()) + ", "@ + entry_text(es.last())
    }
}

/// One wildcard import statement.
pub open spec fn wildcard_stmt(w: WildModel, cfg: Option<Seq<char>>) -> Seq<char> {
    "import * as "@ + w.name + " from "@ + quoted_text(module_raw_text(w.module, cfg)) + ";"@
}

/// The default-import part of a grouped statement: the default name,
/// followed by a separator when named entries follow.
pub open spec fn default_part(e: ModuleEntryModel) -> Seq<char> {
    match e.default_import {
        Some(d) => if e.named.len() > 0 {
            d + ", "@
        } else {
            d
        },
        None => Seq::empty(),
    }
}

/// The braced part of a grouped statement, empty when the module has no
/// named entries.
pub open spec fn brace_part(e: ModuleEntryModel) -> Seq<char> {
    if e.named.len() > 0 {
        "{"@ + named_list_text(e.named) + "}"@
    } else {
        Seq::empty()
    }
}

/// One grouped import statement for a module: the default import first, the
/// named entries in braces, and the resolved module text.
pub open spec fn module_stmt(e: ModuleEntryModel, cfg: Option<Seq<char>>) -> Seq<char> {
    "import "@ + default_part(e) + brace_part(e) + " from "@ + quoted_text(
        module_raw_text(e.module, cfg),
    ) + ";"@
}

/// Effect of emitting the wildcard statements, one per line.
pub open spec fn render_wildcards(s: FmtState, ws: Seq<WildModel>, cfg: Option<Seq<char>>) -> FmtState
    decreases ws.len(),
{
    if ws.len() == 0 {
        s
    } else {
        fmt_write(
            fmt_new_line_unless_empty(render_wildcards(s, ws.drop_last(), cfg)),
            wildcard_stmt(ws.last(), cfg),
        )
    }
}

/// Effect of emitting the grouped module statements, one per line.
pub open spec fn render_modules(
    s: FmtState,
    ms: Seq<ModuleEntryModel>,
    cfg: Option<Seq<char>>,
) -> FmtState
    decreases ms.len(),
{
    if ms.len() == 0 {
        s
    } else {
        fmt_write(
            fmt_new_line_unless_empty(render_modules(s, ms.drop_last(), cfg)),
            module_stmt(ms.last(), cfg),
        )
    }
}

/// Effect of emitting the import header: nothing when nothing is
/// registered; otherwise the wildcard statements, the grouped statements,
/// and exactly one blank separator line.
pub open spec fn render_header(s: FmtState, r: ResolutionModel, cfg: Option<Seq<char>>) -> FmtState {
    if r.wildcards.len() == 0 && r.modules.len() == 0 {
        s
    } else {
        fmt_new_line(
            fmt_new_line_unless_empty(
                render_modules(render_wildcards(s, r.wildcards, cfg), r.modules, cfg),
            ),
        )
    }
}

/// Effect of rendering a full file: the import header synthesized from the
/// import references of the stream, then the body.
pub open spec fn render_file(s: FmtState, items: Seq<Item>, cfg: Option<Seq<char>>) -> FmtState {
    render_items(render_header(s, resolve_seq(items_imports(items)), cfg), items)
}

/// A stream with no import references renders with no header and no
/// leading blank line: the file output is exactly the formatted body.
pub proof fn lemma_no_import_passthrough(s: FmtState, items: Seq<Item>, cfg: Option<Seq<char>>)
    requires
        items_imports(items) == Seq::<ImportModel>::empty(),
    ensures
        render_file(s, items, cfg) == render_items(s, items),
{
    assert(resolve_seq(items_imports(items)) == empty_resolution());
    assert(render_header(s, empty_resolution(), cfg) == s);
}

/// The quoted text a module reference resolves to under the given
/// configuration.
pub fn resolve_module_text(m: &Module, config: &Config) -> (r: String)
    ensures
        r@ == quoted_text(module_raw_text(m@, config@)),
{
    let raw: String = match m {
        Module::Global(g) => g.clone(),
        Module::Path(p) => match &config.current {
            None => p.clone(),
            Some(base) => relative_between(base.as_str(), p.as_str()),
        },
    };
    proof {
        assert(raw@ == module_raw_text(m@, config@));
    }
    let mut r = String::from_str("\"");
    let esc = escape_str(raw.as_str());
    r.append(esc.as_str());
    r.append("\"");
    proof {
        assert(r@ =~= quoted_text(module_raw_text(m@, config@)));
    }
    r
}

/// Build one wildcard import statement.
fn wildcard_stmt_string(w: &WildEntry, config: &Config) -> (r: String)
    ensures
        r@ == wildcard_stmt(w.deep_view(), config@),
{
    let mut r = String::from_str("import * as ");
    r.append(w.name.as_str());
    r.append(" from ");
    let m = resolve_module_text(&w.module, config);
    r.append(m.as_str());
    r.append(";");
    proof {
        assert(r@ =~= wildcard_stmt(w.deep_view(), config@));
    }
    r
}

/// Build the text of one named entry.
fn entry_string(e: &NamedEntry) -> (r: String)
    ensures
        r@ == entry_text(e.deep_view()),
{
    let mut r = e.name.clone();
    match &e.alias {
        Some(a) => {
            r.append(" as ");
            r.append(a.as_str());
        },
        None => {},
    }
    r
}

/// Build one grouped import statement.
fn module_stmt_string(e: &ModuleEntry, config: &Config) -> (r: String)
    ensures
        r@ == module_stmt(e.deep_view(), config@),
{
    let ghost ed = e.deep_view();
    let mut r = String::from_str("import ");
    match &e.default_import {
        Some(d) => {
            r.append(d.as_str());
            if e.named.len() > 0 {
                r.append(", ");
            }
        },
        None => {},
    }
    proof {
        assert(r@ =~= "import "@ + default_part(ed));
    }
    if e.named.len() > 0 {
        r.append("{");
        let ghost pre = r@;
        let ghost ned = ed.named;
        proof {
            assert(ned == e.named.deep_view());
            assert(r@ =~= pre + named_list_text(ned.subrange(0, 0)));
        }
        let mut k: usize = 0;
        while k < e.named.len()
            invariant
                k <= e.named@.len(),
                ned == e.named.deep_view(),
                ned.len() == e.named@.len(),
                r@ == pre + named_list_text(ned.subrange(0, k as int)),
            decreases e.named@.len() - k,
        {
            if k > 0 {
                r.append(", ");
            }
            let es = entry_string(&e.named[k]);
            r.append(es.as_str());
            proof {
                assert(ned[k as int] == e.named[k as int].deep_view());
                assert(ned.subrange(0, k as int + 1).drop_last() =~= ned.subrange(0, k as int));
                assert(ned.subrange(0, k as int + 1).last() == ned[k as int]);
                if k == 0 {
                    assert(ned.subrange(0, 1)[0] == ned[0]);
                    assert(named_list_text(ned.subrange(0, 1)) == entry_text(ned[0]));
                }
                assert(r@ =~= pre + named_list_text(ned.subrange(0, k as int + 1)));
            }
            k = k + 1;
        }
        proof {
            assert(ned.subrange(0, ned.len() as int) =~= ned);
        }
        r.append("}");
        proof {
            assert(r@ =~= "import "@ + default_part(ed) + brace_part(ed));
        }
    }
    r.append(" from ");
    let m = resolve_module_text(&e.module, config);
    r.append(m.as_str());
    r.append(";");
    proof {
        assert(r@ =~= module_stmt(ed, config@));
    }
    r
}

/// Emit the import header for a resolution.
fn write_header(fmt: &mut Formatter, r: &Resolution, config: &Config)
    ensures
        final(fmt).mdl() == render_header(old(fmt).mdl(), r.deep_view(), config@),
{
    let ghost rv = r.deep_view();
    if r.wildcards.len() == 0 && r.modules.len() == 0 {
        return;
    }
    let ghost s0 = fmt.mdl();
    let ghost wd = rv.wildcards;
    proof {
        assert(wd == r.wildcards.deep_view());
        assert(fmt.mdl() == render_wildcards(s0, wd.subrange(0, 0), config@));
    }
    let mut k: usize = 0;
    while k < r.wildcards.len()
        invariant
            k <= r.wildcards@.len(),
            wd == r.wildcards.deep_view(),
            wd.len() == r.wildcards@.len(),
            fmt.mdl() == render_wildcards(s0, wd.subrange(0, k as int), config@),
        decreases r.wildcards@.len() - k,
    {
        fmt.new_line_unless_empty();
        let stmt = wildcard_stmt_string(&r.wildcards[k], config);
        fmt.write_str(stmt.as_str());
        proof {
            assert(wd[k as int] == r.wildcards[k as int].deep_view());
            assert(wd.subrange(0, k as int + 1).drop_last() =~= wd.subrange(0, k as int));
            assert(wd.subrange(0, k as int + 1).last() == wd[k as int]);
        }
        k = k + 1;
    }
    proof {
        assert(wd.subrange(0, wd.len() as int) =~= wd);
    }
    let ghost s1 = fmt.mdl();
    let ghost md = rv.modules;
    proof {
        assert(md == r.modules.deep_view());
        assert(fmt.mdl() == render_modules(s1, md.subrange(0, 0), config@));
    }
    let mut j: usize = 0;
    while j < r.modules.len()
        invariant
            j <= r.modules@.len(),
            md == r.modules.deep_view(),
            md.len() == r.modules@.len(),
            s1 == render_wildcards(s0, rv.wildcards, config@),
            fmt.mdl() == render_modules(s1, md.subrange(0, j as int), config@),
        decreases r.modules@.len() - j,
    {
        fmt.new_line_unless_empty();
        let stmt = module_stmt_string(&r.modules[j], config);
        fmt.write_str(stmt.as_str());
        proof {
            assert(md[j as int] == r.modules[j as int].deep_view());
            assert(md.subrange(0, j as int + 1).drop_last() =~= md.subrange(0, j as int));
            assert(md.subrange(0, j as int + 1).last() == md[j as int]);
        }
        j = j + 1;
    }
    proof {
        assert(md.subrange(0, md.len() as int) =~= md);
    }
    fmt.new_line_unless_empty();
    fmt.new_line();
}

/// Render a full file: collect every import reference of the stream,
/// resolve them into the sorted, deduplicated header, emit the header, and
/// emit the body.
pub fn format_file(tokens: &Tokens, fmt: &mut Formatter, config: &Config)
    ensures
        final(fmt).mdl() == render_file(old(fmt).mdl(), tokens.items@, config@),
{
    let imports = tokens.walk_imports();
    let res = resolve_imports(&imports);
    proof {
        assert(res.deep_view() == resolve_seq(items_imports(tokens.items@)));
    }
    write_header(fmt, &res, config);
    format_items(fmt, &tokens.items);
}

} // verus!
