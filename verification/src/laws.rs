//! Laws of the import resolution: the orders the resolver sorts by are
//! total, registration keeps the aggregate sorted and deduplicated, and the
//! resolution — and with it the rendered header — is a function of the
//! collection of registered imports, not of their order.

use crate::js::ImportKind;
use crate::js::ImportModel;
use crate::js::ModuleEntryModel;
use crate::js::ModuleModel;
use crate::js::NamedModel;
use crate::js::ResolutionModel;
use crate::js::WildModel;
use crate::formatter::FmtState;
use crate::js::empty_resolution;
use crate::js::insert_named;
use crate::js::insert_wild;
use crate::js::module_lt;
use crate::js::named_lt;
use crate::js::reg_default;
use crate::js::reg_named;
use crate::js::render_header;
use crate::js::resolve_seq;
use crate::js::resolve_step;
use crate::js::str_lt;
use crate::js::wild_lt;
use vstd::prelude::*;

verus! {

/// Two characters with the same code are the same character.
proof fn lemma_char_code_eq(a: char, b: char)
    requires
        a as u32 == b as u32,
    ensures
        a == b,
{
}

/// The lexicographic text order never holds of a text and itself.
pub proof fn lemma_str_lt_irrefl(a: Seq<char>)
    ensures
        !str_lt(a, a),
    decreases a.len(),
{
    if a.len() > 0 {
        lemma_str_lt_irrefl(a.drop_first());
    }
}

/// Any two texts are comparable: one is below the other, or they are equal.
pub proof fn lemma_str_lt_connected(a: Seq<char>, b: Seq<char>)
    ensures
        str_lt(a, b) || str_lt(b, a) || a == b,
    decreases a.len(),
{
    if a.len() == 0 && b.len() == 0 {
        assert(a =~= b);
    } else if a.len() > 0 && b.len() > 0 {
        if !((a[0] as u32) < (b[0] as u32)) && !((b[0] as u32) < (a[0] as u32)) {
            lemma_char_code_eq(a[0], b[0]);
            assert(a[0] == b[0]);
            lemma_str_lt_connected(a.drop_first(), b.drop_first());
            if a.drop_first() == b.drop_first() {
                assert(a.drop_first().len() == a.len() - 1);
                assert(b.drop_first().len() == b.len() - 1);
                assert(a.len() == b.len());
                assert forall|i: int| 0 <= i < a.len() implies #[trigger] a[i] == #[trigger] b[i] by {
                    if i > 0 {
                        assert(a.drop_first()[i - 1] == a[i]);
                        assert(b.drop_first()[i - 1] == b[i]);
                    }
                }
                assert(a =~= b);
            }
        }
    }
}

/// The lexicographic text order is transitive.
pub proof fn lemma_str_lt_trans(a: Seq<char>, b: Seq<char>, c: Seq<char>)
    requires
        str_lt(a, b),
        str_lt(b, c),
    ensures
        str_lt(a, c),
    decreases a.len(),
{
    if a.len() > 0 {
        if (a[0] as u32) == (b[0] as u32) && (b[0] as u32) == (c[0] as u32) {
            lemma_str_lt_trans(a.drop_first(), b.drop_first(), c.drop_first());
        }
    }
}

/// The module order never holds of a module and itself.
pub proof fn lemma_module_lt_irrefl(a: ModuleModel)
    ensures
        !module_lt(a, a),
{
    match a {
        ModuleModel::Path(x) => lemma_str_lt_irrefl(x),
        ModuleModel::Global(x) => lemma_str_lt_irrefl(x),
    }
}

/// Any two modules are comparable.
pub proof fn lemma_module_lt_connected(a: ModuleModel, b: ModuleModel)
    ensures
        module_lt(a, b) || module_lt(b, a) || a == b,
{
    match (a, b) {
        (ModuleModel::Path(x), ModuleModel::Path(y)) => lemma_str_lt_connected(x, y),
        (ModuleModel::Global(x), ModuleModel::Global(y)) => lemma_str_lt_connected(x, y),
        _ => {},
    }
}

/// The module order is transitive.
pub proof fn lemma_module_lt_trans(a: ModuleModel, b: ModuleModel, c: ModuleModel)
    requires
        module_lt(a, b),
        module_lt(b, c),
    ensures
        module_lt(a, c),
{
    match (a, b, c) {
        (ModuleModel::Path(x), ModuleModel::Path(y), ModuleModel::Path(z)) => lemma_str_lt_trans(
            x,
            y,
            z,
        ),
        (ModuleModel::Global(x), ModuleModel::Global(y), ModuleModel::Global(z)) => {
            lemma_str_lt_trans(x, y, z)
        },
        _ => {},
    }
}

/// The named-entry order never holds of an entry and itself.
pub proof fn lemma_named_lt_irrefl(a: NamedModel)
    ensures
        !named_lt(a, a),
{
    lemma_str_lt_irrefl(a.name);
    match a.alias {
        Some(x) => lemma_str_lt_irrefl(x),
        None => {},
    }
}

/// Any two named entries are comparable.
pub proof fn lemma_named_lt_connected(a: NamedModel, b: NamedModel)
    ensures
        named_lt(a, b) || named_lt(b, a) || a == b,
{
    lemma_str_lt_connected(a.name, b.name);
    match (a.alias, b.alias) {
        (Some(x), Some(y)) => lemma_str_lt_connected(x, y),
        _ => {},
    }
}

/// The named-entry order is transitive.
pub proof fn lemma_named_lt_trans(a: NamedModel, b: NamedModel, c: NamedModel)
    requires
        named_lt(a, b),
        named_lt(b, c),
    ensures
        named_lt(a, c),
{
    lemma_str_lt_trans_cases(a.name, b.name, c.name);
    match (a.alias, b.alias, c.alias) {
        (Some(x), Some(y), Some(z)) => lemma_str_lt_trans_cases(x, y, z),
        _ => {},
    }
}

/// Combined transitivity facts for the lexicographic composition of orders.
proof fn lemma_str_lt_trans_cases(a: Seq<char>, b: Seq<char>, c: Seq<char>)
    ensures
        str_lt(a, b) && str_lt(b, c) ==> str_lt(a, c),
        str_lt(a, b) && b == c ==> str_lt(a, c),
        a == b && str_lt(b, c) ==> str_lt(a, c),
{
    if str_lt(a, b) && str_lt(b, c) {
        lemma_str_lt_trans(a, b, c);
    }
}

/// The wildcard order never holds of an entry and itself.
pub proof fn lemma_wild_lt_irrefl(a: WildModel)
    ensures
        !wild_lt(a, a),
{
    lemma_module_lt_irrefl(a.module);
    lemma_str_lt_irrefl(a.name);
}

/// Any two wildcard entries are comparable.
pub proof fn lemma_wild_lt_connected(a: WildModel, b: WildModel)
    ensures
        wild_lt(a, b) || wild_lt(b, a) || a == b,
{
    lemma_module_lt_connected(a.module, b.module);
    lemma_str_lt_connected(a.name, b.name);
}

/// The wildcard order is transitive.
pub proof fn lemma_wild_lt_trans(a: WildModel, b: WildModel, c: WildModel)
    requires
        wild_lt(a, b),
        wild_lt(b, c),
    ensures
        wild_lt(a, c),
{
    if module_lt(a.module, b.module) && module_lt(b.module, c.module) {
        lemma_module_lt_trans(a.module, b.module, c.module);
    }
    if str_lt(a.name, b.name) && str_lt(b.name, c.name) {
        lemma_str_lt_trans(a.name, b.name, c.name);
    }
}

/// A sequence of wildcard entries in strictly ascending order.
pub open spec fn sorted_wilds(ws: Seq<WildModel>) -> bool {
    forall|i: int, j: int| 0 <= i < j < ws.len() ==> wild_lt(ws[i], ws[j])
}

/// A sequence of named entries in strictly ascending order.
pub open spec fn sorted_named(es: Seq<NamedModel>) -> bool {
    forall|i: int, j: int| 0 <= i < j < es.len() ==> named_lt(es[i], es[j])
}

/// A sequence of module entries in strictly ascending module order, each
/// entry holding its named entries in strictly ascending order.
pub open spec fn wf_modules(ms: Seq<ModuleEntryModel>) -> bool {
    &&& forall|i: int, j: int|
        0 <= i < j < ms.len() ==> module_lt(ms[i].module, ms[j].module)
    &&& forall|i: int| 0 <= i < ms.len() ==> sorted_named(#[trigger] ms[i].named)
}

/// A well-formed resolution: both aggregates sorted and deduplicated.
pub open spec fn wf_resolution(r: ResolutionModel) -> bool {
    sorted_wilds(r.wildcards) && wf_modules(r.modules)
}

/// Inserting a wildcard entry keeps the sequence sorted; the result holds
/// exactly the old entries and the new one.
pub proof fn lemma_insert_wild_props(ws: Seq<WildModel>, w: WildModel)
    requires
        sorted_wilds(ws),
    ensures
        sorted_wilds(insert_wild(ws, w)),
        forall|x: WildModel| #[trigger] insert_wild(ws, w).contains(x) <==> ws.contains(x) || x
            == w,
    decreases ws.len(),
{
    if ws.len() == 0 {
        assert forall|x: WildModel| #[trigger] insert_wild(ws, w).contains(x) implies x == w by {
            let i = choose|i: int| 0 <= i < insert_wild(ws, w).len() && insert_wild(ws, w)[i] == x;
            assert(i == 0);
        }
        assert(insert_wild(ws, w)[0] == w);
    } else if w == ws[0] {
        assert(ws[0] == w);
        assert(ws.contains(w));
    } else if wild_lt(w, ws[0]) {
        let r = seq![w] + ws;
        assert forall|i: int, j: int| 0 <= i < j < r.len() implies wild_lt(r[i], r[j]) by {
            if i == 0 {
                if j == 1 {
                } else {
                    lemma_wild_lt_trans(w, ws[0], ws[j - 1]);
                }
            }
        }
        assert forall|x: WildModel| #[trigger] r.contains(x) implies ws.contains(x) || x == w by {
            let i = choose|i: int| 0 <= i < r.len() && r[i] == x;
            if i > 0 {
                assert(ws[i - 1] == x);
            }
        }
        assert forall|x: WildModel| ws.contains(x) || x == w implies #[trigger] r.contains(x) by {
            if x == w {
                assert(r[0] == x);
            } else {
                let i = choose|i: int| 0 <= i < ws.len() && ws[i] == x;
                assert(r[i + 1] == x);
            }
        }
    } else {
        lemma_wild_lt_connected(w, ws[0]);
        assert(wild_lt(ws[0], w));
        let tail = ws.drop_first();
        assert forall|i: int, j: int| 0 <= i < j < tail.len() implies wild_lt(
            tail[i],
            tail[j],
        ) by {
            assert(tail[i] == ws[i + 1]);
            assert(tail[j] == ws[j + 1]);
        }
        lemma_insert_wild_props(tail, w);
        let r = seq![ws[0]] + insert_wild(tail, w);
        assert forall|i: int, j: int| 0 <= i < j < r.len() implies wild_lt(r[i], r[j]) by {
            if i == 0 {
                let x = r[j];
                assert(insert_wild(tail, w).contains(x)) by {
                    assert(insert_wild(tail, w)[j - 1] == x);
                }
                if x == w {
                } else {
                    let t = choose|t: int| 0 <= t < tail.len() && tail[t] == x;
                    assert(ws[t + 1] == x);
                }
            } else {
                assert(insert_wild(tail, w)[i - 1] == r[i]);
                assert(insert_wild(tail, w)[j - 1] == r[j]);
            }
        }
        assert forall|x: WildModel| #[trigger] r.contains(x) implies ws.contains(x) || x == w by {
            let i = choose|i: int| 0 <= i < r.len() && r[i] == x;
            if i == 0 {
                assert(ws[0] == x);
            } else {
                assert(insert_wild(tail, w)[i - 1] == x);
                assert(insert_wild(tail, w).contains(x));
                if tail.contains(x) {
                    let t = choose|t: int| 0 <= t < tail.len() && tail[t] == x;
                    assert(ws[t + 1] == x);
                }
            }
        }
        assert forall|x: WildModel| ws.contains(x) || x == w implies #[trigger] r.contains(x) by {
            if x == w {
                assert(insert_wild(tail, w).contains(x));
                let t = choose|t: int| 0 <= t < insert_wild(tail, w).len() && insert_wild(
                    tail,
                    w,
                )[t] == x;
                assert(r[t + 1] == x);
            } else {
                let i = choose|i: int| 0 <= i < ws.len() && ws[i] == x;
                if i == 0 {
                    assert(r[0] == x);
                } else {
                    assert(tail[i - 1] == x);
                    assert(tail.contains(x));
                    assert(insert_wild(tail, w).contains(x));
                    let t = choose|t: int| 0 <= t < insert_wild(tail, w).len() && insert_wild(
                        tail,
                        w,
                    )[t] == x;
                    assert(r[t + 1] == x);
                }
            }
        }
    }
}

/// Inserting a named entry keeps the sequence sorted; the result holds
/// exactly the old entries and the new one.
pub proof fn lemma_insert_named_props(es: Seq<NamedModel>, e: NamedModel)
    requires
        sorted_named(es),
    ensures
        sorted_named(insert_named(es, e)),
        forall|x: NamedModel| #[trigger] insert_named(es, e).contains(x) <==> es.contains(x) || x
            == e,
    decreases es.len(),
{
    if es.len() == 0 {
        assert forall|x: NamedModel| #[trigger] insert_named(es, e).contains(x) implies x == e by {
            let i = choose|i: int| 0 <= i < insert_named(es, e).len() && insert_named(es, e)[i]
                == x;
            assert(i == 0);
        }
        assert(insert_named(es, e)[0] == e);
    } else if e == es[0] {
        assert(es[0] == e);
        assert(es.contains(e));
    } else if named_lt(e, es[0]) {
        let r = seq![e] + es;
        assert forall|i: int, j: int| 0 <= i < j < r.len() implies named_lt(r[i], r[j]) by {
            if i == 0 {
                if j == 1 {
                } else {
                    lemma_named_lt_trans(e, es[0], es[j - 1]);
                }
            }
        }
        assert forall|x: NamedModel| #[trigger] r.contains(x) implies es.contains(x) || x == e by {
            let i = choose|i: int| 0 <= i < r.len() && r[i] == x;
            if i > 0 {
                assert(es[i - 1] == x);
            }
        }
        assert forall|x: NamedModel| es.contains(x) || x == e implies #[trigger] r.contains(x) by {
            if x == e {
                assert(r[0] == x);
            } else {
                let i = choose|i: int| 0 <= i < es.len() && es[i] == x;
                assert(r[i + 1] == x);
            }
        }
    } else {
        lemma_named_lt_connected(e, es[0]);
        assert(named_lt(es[0], e));
        let tail = es.drop_first();
        assert forall|i: int, j: int| 0 <= i < j < tail.len() implies named_lt(
            tail[i],
            tail[j],
        ) by {
            assert(tail[i] == es[i + 1]);
            assert(tail[j] == es[j + 1]);
        }
        lemma_insert_named_props(tail, e);
        let r = seq![es[0]] + insert_named(tail, e);
        assert forall|i: int, j: int| 0 <= i < j < r.len() implies named_lt(r[i], r[j]) by {
            if i == 0 {
                let x = r[j];
                assert(insert_named(tail, e).contains(x)) by {
                    assert(insert_named(tail, e)[j - 1] == x);
                }
                if x == e {
                } else {
                    let t = choose|t: int| 0 <= t < tail.len() && tail[t] == x;
                    assert(es[t + 1] == x);
                }
            } else {
                assert(insert_named(tail, e)[i - 1] == r[i]);
                assert(insert_named(tail, e)[j - 1] == r[j]);
            }
        }
        assert forall|x: NamedModel| #[trigger] r.contains(x) implies es.contains(x) || x == e by {
            let i = choose|i: int| 0 <= i < r.len() && r[i] == x;
            if i == 0 {
                assert(es[0] == x);
            } else {
                assert(insert_named(tail, e)[i - 1] == x);
                assert(insert_named(tail, e).contains(x));
                if tail.contains(x) {
                    let t = choose|t: int| 0 <= t < tail.len() && tail[t] == x;
                    assert(es[t + 1] == x);
                }
            }
        }
        assert forall|x: NamedModel| es.contains(x) || x == e implies #[trigger] r.contains(x) by {
            if x == e {
                assert(insert_named(tail, e).contains(x));
                let t = choose|t: int| 0 <= t < insert_named(tail, e).len() && insert_named(
                    tail,
                    e,
                )[t] == x;
                assert(r[t + 1] == x);
            } else {
                let i = choose|i: int| 0 <= i < es.len() && es[i] == x;
                if i == 0 {
                    assert(r[0] == x);
                } else {
                    assert(tail[i - 1] == x);
                    assert(tail.contains(x));
                    assert(insert_named(tail, e).contains(x));
                    let t = choose|t: int| 0 <= t < insert_named(tail, e).len() && insert_named(
                        tail,
                        e,
                    )[t] == x;
                    assert(r[t + 1] == x);
                }
            }
        }
    }
}

/// Inserting a named entry that is already present changes nothing: the
/// deduplication that makes registration idempotent.
pub proof fn lemma_insert_named_idempotent(es: Seq<NamedModel>, e: NamedModel)
    requires
        sorted_named(es),
        es.contains(e),
    ensures
        insert_named(es, e) == es,
    decreases es.len(),
{
    let i = choose|i: int| 0 <= i < es.len() && es[i] == e;
    if i == 0 {
    } else {
        assert(named_lt(es[0], e));
        lemma_named_lt_irrefl(es[0]);
        assert(e != es[0]);
        lemma_named_lt_connected(e, es[0]);
        if named_lt(e, es[0]) {
            lemma_named_lt_trans(e, es[0], e);
            lemma_named_lt_irrefl(e);
        }
        let tail = es.drop_first();
        assert forall|p: int, q: int| 0 <= p < q < tail.len() implies named_lt(
            tail[p],
            tail[q],
        ) by {
            assert(tail[p] == es[p + 1]);
            assert(tail[q] == es[q + 1]);
        }
        assert(tail[i - 1] == e);
        assert(tail.contains(e));
        lemma_insert_named_idempotent(tail, e);
        assert(seq![es[0]] + tail =~= es);
    }
}


/// Look up the entry registered for a module.
pub open spec fn find_entry(ms: Seq<ModuleEntryModel>, m: ModuleModel) -> Option<ModuleEntryModel>
    decreases ms.len(),
{
    if ms.len() == 0 {
        None
    } else if ms[0].module == m {
        Some(ms[0])
    } else {
        find_entry(ms.drop_first(), m)
    }
}

/// Whether some entry carries the given module.
pub open spec fn has_key(ms: Seq<ModuleEntryModel>, m: ModuleModel) -> bool {
    exists|i: int| 0 <= i < ms.len() && (#[trigger] ms[i]).module == m
}

/// The entry for `m` after a named registration.
pub open spec fn named_after(
    cur: Option<ModuleEntryModel>,
    m: ModuleModel,
    e: NamedModel,
) -> ModuleEntryModel {
    match cur {
        None => ModuleEntryModel { module: m, default_import: None, named: seq![e] },
        Some(en) => ModuleEntryModel { named: insert_named(en.named, e), ..en },
    }
}

/// The entry for `m` after a default registration.
pub open spec fn default_after(
    cur: Option<ModuleEntryModel>,
    m: ModuleModel,
    n: Seq<char>,
) -> ModuleEntryModel {
    match cur {
        None => ModuleEntryModel { module: m, default_import: Some(n), named: Seq::empty() },
        Some(en) => ModuleEntryModel { default_import: Some(n), ..en },
    }
}

/// A module below every key of a sorted sequence has no entry in it.
proof fn lemma_find_absent(ms: Seq<ModuleEntryModel>, m: ModuleModel)
    requires
        forall|i: int| 0 <= i < ms.len() ==> (#[trigger] ms[i]).module != m,
    ensures
        find_entry(ms, m) == None::<ModuleEntryModel>,
    decreases ms.len(),
{
    if ms.len() > 0 {
        assert forall|i: int| 0 <= i < ms.drop_first().len() implies (#[trigger] ms.drop_first()[
            i
        ]).module != m by {
            assert(ms.drop_first()[i] == ms[i + 1]);
        }
        lemma_find_absent(ms.drop_first(), m);
    }
}

/// In a sorted sequence, lookup by module and membership agree.
pub proof fn lemma_contains_find(ms: Seq<ModuleEntryModel>, x: ModuleEntryModel)
    requires
        wf_modules(ms),
    ensures
        ms.contains(x) <==> find_entry(ms, x.module) == Some(x),
    decreases ms.len(),
{
    if ms.len() > 0 {
        let tail = ms.drop_first();
        assert forall|i: int, j: int| 0 <= i < j < tail.len() implies module_lt(
            (#[trigger] tail[i]).module,
            (#[trigger] tail[j]).module,
        ) by {
            assert(tail[i] == ms[i + 1]);
            assert(tail[j] == ms[j + 1]);
        }
        assert forall|i: int| 0 <= i < tail.len() implies sorted_named(
            (#[trigger] tail[i]).named,
        ) by {
            assert(tail[i] == ms[i + 1]);
        }
        lemma_contains_find(tail, x);
        if ms[0].module == x.module {
            if ms.contains(x) {
                let i = choose|i: int| 0 <= i < ms.len() && ms[i] == x;
                if i > 0 {
                    assert(module_lt(ms[0].module, ms[i].module));
                    lemma_module_lt_irrefl(ms[0].module);
                }
                assert(x == ms[0]);
            }
        } else {
            if ms.contains(x) {
                let i = choose|i: int| 0 <= i < ms.len() && ms[i] == x;
                assert(i > 0);
                assert(tail[i - 1] == x);
                assert(tail.contains(x));
            }
            if find_entry(ms, x.module) == Some(x) {
                assert(tail.contains(x));
                let i = choose|i: int| 0 <= i < tail.len() && tail[i] == x;
                assert(ms[i + 1] == x);
            }
        }
    }
}

/// A found entry carries the module it was looked up by.
pub proof fn lemma_find_module(ms: Seq<ModuleEntryModel>, m: ModuleModel)
    ensures
        find_entry(ms, m) is Some ==> find_entry(ms, m).unwrap().module == m,
        (find_entry(ms, m) is Some) <==> has_key(ms, m),
    decreases ms.len(),
{
    if ms.len() > 0 {
        lemma_find_module(ms.drop_first(), m);
        if ms[0].module == m {
        } else {
            if has_key(ms, m) {
                let i = choose|i: int| 0 <= i < ms.len() && ms[i].module == m;
                assert(i > 0);
                assert(ms.drop_first()[i - 1] == ms[i]);
                assert(has_key(ms.drop_first(), m));
            }
            if has_key(ms.drop_first(), m) {
                let i = choose|i: int| 0 <= i < ms.drop_first().len() && ms.drop_first()[
                    i
                ].module == m;
                assert(ms[i + 1] == ms.drop_first()[i]);
            }
        }
    }
}

/// Registering a named entry keeps the aggregate well formed, updates the
/// module's entry exactly, and leaves every other entry unchanged.
pub proof fn lemma_reg_named_props(ms: Seq<ModuleEntryModel>, m: ModuleModel, e: NamedModel)
    requires
        wf_modules(ms),
    ensures
        wf_modules(reg_named(ms, m, e)),
        find_entry(reg_named(ms, m, e), m) == Some(named_after(find_entry(ms, m), m, e)),
        forall|m2: ModuleModel| m2 != m ==> #[trigger] find_entry(reg_named(ms, m, e), m2)
            == find_entry(ms, m2),
        forall|i: int| 0 <= i < reg_named(ms, m, e).len() ==> (#[trigger] reg_named(ms, m, e)[
            i
        ]).module == m || has_key(ms, reg_named(ms, m, e)[i].module),
    decreases ms.len(),
{
    let r = reg_named(ms, m, e);
    if ms.len() == 0 {
        assert(r =~= seq![named_after(None, m, e)]);
        assert(r[0].module == m);
        assert(r.drop_first() =~= Seq::<ModuleEntryModel>::empty());
        assert forall|m2: ModuleModel| m2 != m implies #[trigger] find_entry(r, m2) == find_entry(
            ms,
            m2,
        ) by {
            assert(find_entry(r.drop_first(), m2) == None::<ModuleEntryModel>);
        }
    } else if m == ms[0].module {
        let updated = ModuleEntryModel { named: insert_named(ms[0].named, e), ..ms[0] };
        assert(r == seq![updated] + ms.drop_first());
        assert(sorted_named(ms[0].named));
        lemma_insert_named_props(ms[0].named, e);
        assert forall|i: int, j: int| 0 <= i < j < r.len() implies module_lt(
            (#[trigger] r[i]).module,
            (#[trigger] r[j]).module,
        ) by {
            assert(r[j] == ms[j]);
            if i > 0 {
                assert(r[i] == ms[i]);
            }
        }
        assert forall|i: int| 0 <= i < r.len() implies sorted_named((#[trigger] r[i]).named) by {
            if i > 0 {
                assert(r[i] == ms[i]);
            }
        }
        assert(r[0].module == m);
        assert(find_entry(r, m) == Some(updated));
        assert forall|m2: ModuleModel| m2 != m implies #[trigger] find_entry(r, m2) == find_entry(
            ms,
            m2,
        ) by {
            assert(r.drop_first() =~= ms.drop_first());
        }
        assert forall|i: int| 0 <= i < r.len() implies (#[trigger] r[i]).module == m || has_key(
            ms,
            r[i].module,
        ) by {
            if i > 0 {
                assert(r[i] == ms[i]);
            }
        }
    } else if module_lt(m, ms[0].module) {
        let fresh = named_after(None, m, e);
        assert(r == seq![fresh] + ms);
        assert forall|i: int, j: int| 0 <= i < j < r.len() implies module_lt(
            (#[trigger] r[i]).module,
            (#[trigger] r[j]).module,
        ) by {
            assert(r[j] == ms[j - 1]);
            if i > 0 {
                assert(r[i] == ms[i - 1]);
            } else {
                if j > 1 {
                    lemma_module_lt_trans(m, ms[0].module, ms[j - 1].module);
                }
            }
        }
        assert forall|i: int| 0 <= i < r.len() implies sorted_named((#[trigger] r[i]).named) by {
            if i > 0 {
                assert(r[i] == ms[i - 1]);
            }
        }
        assert forall|i: int| 0 <= i < ms.len() implies (#[trigger] ms[i]).module != m by {
            if i > 0 {
                assert(module_lt(ms[0].module, ms[i].module));
                lemma_module_lt_trans(m, ms[0].module, ms[i].module);
            }
            lemma_module_lt_irrefl(ms[i].module);
        }
        lemma_find_absent(ms, m);
        assert(r[0].module == m);
        assert(find_entry(r, m) == Some(fresh));
        assert forall|m2: ModuleModel| m2 != m implies #[trigger] find_entry(r, m2) == find_entry(
            ms,
            m2,
        ) by {
            assert(r.drop_first() =~= ms);
        }
        assert forall|i: int| 0 <= i < r.len() implies (#[trigger] r[i]).module == m || has_key(
            ms,
            r[i].module,
        ) by {
            if i > 0 {
                assert(r[i] == ms[i - 1]);
            }
        }
    } else {
        lemma_module_lt_connected(m, ms[0].module);
        assert(module_lt(ms[0].module, m));
        let tail = ms.drop_first();
        assert forall|i: int, j: int| 0 <= i < j < tail.len() implies module_lt(
            (#[trigger] tail[i]).module,
            (#[trigger] tail[j]).module,
        ) by {
            assert(tail[i] == ms[i + 1]);
            assert(tail[j] == ms[j + 1]);
        }
        assert forall|i: int| 0 <= i < tail.len() implies sorted_named(
            (#[trigger] tail[i]).named,
        ) by {
            assert(tail[i] == ms[i + 1]);
        }
        lemma_reg_named_props(tail, m, e);
        let rt = reg_named(tail, m, e);
        assert(r == seq![ms[0]] + rt);
        assert forall|i: int, j: int| 0 <= i < j < r.len() implies module_lt(
            (#[trigger] r[i]).module,
            (#[trigger] r[j]).module,
        ) by {
            if i > 0 {
                assert(r[i] == rt[i - 1]);
                assert(r[j] == rt[j - 1]);
            } else {
                assert(r[j] == rt[j - 1]);
                if rt[j - 1].module == m {
                } else {
                    assert(has_key(tail, rt[j - 1].module));
                    let t = choose|t: int| 0 <= t < tail.len() && tail[t].module == rt[j
                        - 1].module;
                    assert(tail[t] == ms[t + 1]);
                    assert(module_lt(ms[0].module, ms[t + 1].module));
                }
            }
        }
        assert forall|i: int| 0 <= i < r.len() implies sorted_named((#[trigger] r[i]).named) by {
            if i > 0 {
                assert(r[i] == rt[i - 1]);
            }
        }
        lemma_module_lt_irrefl(ms[0].module);
        assert(ms[0].module != m);
        assert(r[0] == ms[0]);
        assert(r.drop_first() =~= rt);
        assert(find_entry(r, m) == find_entry(rt, m));
        assert(find_entry(ms, m) == find_entry(tail, m));
        assert forall|m2: ModuleModel| m2 != m implies #[trigger] find_entry(r, m2) == find_entry(
            ms,
            m2,
        ) by {
            if m2 == ms[0].module {
            } else {
                assert(find_entry(r, m2) == find_entry(rt, m2));
                assert(find_entry(ms, m2) == find_entry(tail, m2));
            }
        }
        assert forall|i: int| 0 <= i < r.len() implies (#[trigger] r[i]).module == m || has_key(
            ms,
            r[i].module,
        ) by {
            if i == 0 {
                assert(ms[0].module == r[i].module);
                assert(has_key(ms, r[i].module));
            } else {
                assert(r[i] == rt[i - 1]);
                if rt[i - 1].module != m {
                    assert(has_key(tail, rt[i - 1].module));
                    let t = choose|t: int| 0 <= t < tail.len() && tail[t].module == rt[i
                        - 1].module;
                    assert(tail[t] == ms[t + 1]);
                    assert(has_key(ms, rt[i - 1].module));
                }
            }
        }
    }
}

/// Registering a default import keeps the aggregate well formed, updates
/// the module's entry exactly, and leaves every other entry unchanged.
pub proof fn lemma_reg_default_props(ms: Seq<ModuleEntryModel>, m: ModuleModel, n: Seq<char>)
    requires
        wf_modules(ms),
    ensures
        wf_modules(reg_default(ms, m, n)),
        find_entry(reg_default(ms, m, n), m) == Some(default_after(find_entry(ms, m), m, n)),
        forall|m2: ModuleModel| m2 != m ==> #[trigger] find_entry(reg_default(ms, m, n), m2)
            == find_entry(ms, m2),
        forall|i: int| 0 <= i < reg_default(ms, m, n).len() ==> (#[trigger] reg_default(ms, m, n)[
            i
        ]).module == m || has_key(ms, reg_default(ms, m, n)[i].module),
    decreases ms.len(),
{
    let r = reg_default(ms, m, n);
    if ms.len() == 0 {
        assert(r =~= seq![default_after(None, m, n)]);
        assert(r[0].module == m);
        assert(r.drop_first() =~= Seq::<ModuleEntryModel>::empty());
        assert forall|m2: ModuleModel| m2 != m implies #[trigger] find_entry(r, m2) == find_entry(
            ms,
            m2,
        ) by {
            assert(find_entry(r.drop_first(), m2) == None::<ModuleEntryModel>);
        }
    } else if m == ms[0].module {
        let updated = ModuleEntryModel { default_import: Some(n), ..ms[0] };
        assert(r == seq![updated] + ms.drop_first());
        assert forall|i: int, j: int| 0 <= i < j < r.len() implies module_lt(
            (#[trigger] r[i]).module,
            (#[trigger] r[j]).module,
        ) by {
            assert(r[j] == ms[j]);
            if i > 0 {
                assert(r[i] == ms[i]);
            }
        }
        assert forall|i: int| 0 <= i < r.len() implies sorted_named((#[trigger] r[i]).named) by {
            if i > 0 {
                assert(r[i] == ms[i]);
            }
        }
        assert(r[0].module == m);
        assert(find_entry(r, m) == Some(updated));
        assert forall|m2: ModuleModel| m2 != m implies #[trigger] find_entry(r, m2) == find_entry(
            ms,
            m2,
        ) by {
            assert(r.drop_first() =~= ms.drop_first());
        }
        assert forall|i: int| 0 <= i < r.len() implies (#[trigger] r[i]).module == m || has_key(
            ms,
            r[i].module,
        ) by {
            if i > 0 {
                assert(r[i] == ms[i]);
            }
        }
    } else if module_lt(m, ms[0].module) {
        let fresh = default_after(None, m, n);
        assert(r == seq![fresh] + ms);
        assert forall|i: int, j: int| 0 <= i < j < r.len() implies module_lt(
            (#[trigger] r[i]).module,
            (#[trigger] r[j]).module,
        ) by {
            assert(r[j] == ms[j - 1]);
            if i > 0 {
                assert(r[i] == ms[i - 1]);
            } else {
                if j > 1 {
                    lemma_module_lt_trans(m, ms[0].module, ms[j - 1].module);
                }
            }
        }
        assert forall|i: int| 0 <= i < r.len() implies sorted_named((#[trigger] r[i]).named) by {
            if i > 0 {
                assert(r[i] == ms[i - 1]);
            }
        }
        assert forall|i: int| 0 <= i < ms.len() implies (#[trigger] ms[i]).module != m by {
            if i > 0 {
                assert(module_lt(ms[0].module, ms[i].module));
                lemma_module_lt_trans(m, ms[0].module, ms[i].module);
            }
            lemma_module_lt_irrefl(ms[i].module);
        }
        lemma_find_absent(ms, m);
        assert(r[0].module == m);
        assert(find_entry(r, m) == Some(fresh));
        assert forall|m2: ModuleModel| m2 != m implies #[trigger] find_entry(r, m2) == find_entry(
            ms,
            m2,
        ) by {
            assert(r.drop_first() =~= ms);
        }
        assert forall|i: int| 0 <= i < r.len() implies (#[trigger] r[i]).module == m || has_key(
            ms,
            r[i].module,
        ) by {
            if i > 0 {
                assert(r[i] == ms[i - 1]);
            }
        }
    } else {
        lemma_module_lt_connected(m, ms[0].module);
        assert(module_lt(ms[0].module, m));
        let tail = ms.drop_first();
        assert forall|i: int, j: int| 0 <= i < j < tail.len() implies module_lt(
            (#[trigger] tail[i]).module,
            (#[trigger] tail[j]).module,
        ) by {
            assert(tail[i] == ms[i + 1]);
            assert(tail[j] == ms[j + 1]);
        }
        assert forall|i: int| 0 <= i < tail.len() implies sorted_named(
            (#[trigger] tail[i]).named,
        ) by {
            assert(tail[i] == ms[i + 1]);
        }
        lemma_reg_default_props(tail, m, n);
        let rt = reg_default(tail, m, n);
        assert(r == seq![ms[0]] + rt);
        assert forall|i: int, j: int| 0 <= i < j < r.len() implies module_lt(
            (#[trigger] r[i]).module,
            (#[trigger] r[j]).module,
        ) by {
            if i > 0 {
                assert(r[i] == rt[i - 1]);
                assert(r[j] == rt[j - 1]);
            } else {
                assert(r[j] == rt[j - 1]);
                if rt[j - 1].module == m {
                } else {
                    assert(has_key(tail, rt[j - 1].module));
                    let t = choose|t: int| 0 <= t < tail.len() && tail[t].module == rt[j
                        - 1].module;
                    assert(tail[t] == ms[t + 1]);
                    assert(module_lt(ms[0].module, ms[t + 1].module));
                }
            }
        }
        assert forall|i: int| 0 <= i < r.len() implies sorted_named((#[trigger] r[i]).named) by {
            if i > 0 {
                assert(r[i] == rt[i - 1]);
            }
        }
        lemma_module_lt_irrefl(ms[0].module);
        assert(ms[0].module != m);
        assert(r[0] == ms[0]);
        assert(r.drop_first() =~= rt);
        assert(find_entry(r, m) == find_entry(rt, m));
        assert(find_entry(ms, m) == find_entry(tail, m));
        assert forall|m2: ModuleModel| m2 != m implies #[trigger] find_entry(r, m2) == find_entry(
            ms,
            m2,
        ) by {
            if m2 == ms[0].module {
            } else {
                assert(find_entry(r, m2) == find_entry(rt, m2));
                assert(find_entry(ms, m2) == find_entry(tail, m2));
            }
        }
        assert forall|i: int| 0 <= i < r.len() implies (#[trigger] r[i]).module == m || has_key(
            ms,
            r[i].module,
        ) by {
            if i == 0 {
                assert(ms[0].module == r[i].module);
                assert(has_key(ms, r[i].module));
            } else {
                assert(r[i] == rt[i - 1]);
                if rt[i - 1].module != m {
                    assert(has_key(tail, rt[i - 1].module));
                    let t = choose|t: int| 0 <= t < tail.len() && tail[t].module == rt[i
                        - 1].module;
                    assert(tail[t] == ms[t + 1]);
                    assert(has_key(ms, rt[i - 1].module));
                }
            }
        }
    }
}


/// The wildcard registration an import stands for.
pub open spec fn wild_of(i: ImportModel) -> WildModel {
    WildModel { module: i.module, name: i.name }
}

/// The named entry an import stands for.
pub open spec fn named_of(i: ImportModel) -> NamedModel {
    NamedModel { name: i.name, alias: i.alias }
}

/// Whether the imports hold a wildcard registration equal to `w`.
pub open spec fn has_wild(s: Seq<ImportModel>, w: WildModel) -> bool {
    exists|j: int|
        0 <= j < s.len() && (#[trigger] s[j]).kind == ImportKind::Wildcard && wild_of(s[j]) == w
}

/// Whether the imports register anything against module `m` other than a
/// wildcard.
pub open spec fn has_module(s: Seq<ImportModel>, m: ModuleModel) -> bool {
    exists|j: int|
        0 <= j < s.len() && ((#[trigger] s[j]).kind == ImportKind::Named || s[j].kind
            == ImportKind::Default) && s[j].module == m
}

/// Whether the imports register the named entry `e` against module `m`.
pub open spec fn has_named(s: Seq<ImportModel>, m: ModuleModel, e: NamedModel) -> bool {
    exists|j: int|
        0 <= j < s.len() && (#[trigger] s[j]).kind == ImportKind::Named && s[j].module == m
            && named_of(s[j]) == e
}

/// Whether the imports register the default name `n` against module `m`.
pub open spec fn has_default(s: Seq<ImportModel>, m: ModuleModel, n: Seq<char>) -> bool {
    exists|j: int|
        0 <= j < s.len() && (#[trigger] s[j]).kind == ImportKind::Default && s[j].module == m
            && s[j].name == n
}

/// Whether the resolution holds named entry `e` for module `m`.
pub open spec fn entry_named_in(r: ResolutionModel, m: ModuleModel, e: NamedModel) -> bool {
    match find_entry(r.modules, m) {
        Some(en) => en.named.contains(e),
        None => false,
    }
}

/// Whether the resolution binds default name `n` for module `m`.
pub open spec fn entry_default_in(r: ResolutionModel, m: ModuleModel, n: Seq<char>) -> bool {
    match find_entry(r.modules, m) {
        Some(en) => en.default_import == Some(n),
        None => false,
    }
}

/// Whether the resolution binds any default name for module `m`.
pub open spec fn entry_has_default(r: ResolutionModel, m: ModuleModel) -> bool {
    match find_entry(r.modules, m) {
        Some(en) => en.default_import is Some,
        None => false,
    }
}

/// What the resolution of a sequence of imports holds: it is sorted and
/// deduplicated, its wildcard entries are exactly the wildcard
/// registrations, a module has an entry exactly when something was
/// registered against it, the entry's named set is exactly the named
/// registrations, and its default name is one of the registered defaults,
/// present exactly when one was registered.
pub proof fn lemma_resolve_char(s: Seq<ImportModel>)
    ensures
        wf_resolution(resolve_seq(s)),
        forall|w: WildModel| #[trigger] resolve_seq(s).wildcards.contains(w) <==> has_wild(s, w),
        forall|m: ModuleModel| (#[trigger] find_entry(resolve_seq(s).modules, m)) is Some
            <==> has_module(s, m),
        forall|m: ModuleModel, e: NamedModel| #[trigger] entry_named_in(resolve_seq(s), m, e)
            <==> has_named(s, m, e),
        forall|m: ModuleModel, n: Seq<char>| #[trigger] entry_default_in(resolve_seq(s), m, n)
            ==> has_default(s, m, n),
        forall|m: ModuleModel| #[trigger] entry_has_default(resolve_seq(s), m) <==> (exists|
            n: Seq<char>,
        | has_default(s, m, n)),
    decreases s.len(),
{
    let r = resolve_seq(s);
    if s.len() == 0 {
        assert(r == empty_resolution());
        assert forall|m: ModuleModel| !((#[trigger] find_entry(r.modules, m)) is Some) by {}
        assert forall|m: ModuleModel, e: NamedModel| #[trigger] entry_named_in(
            resolve_seq(s),
            m,
            e,
        ) <==> has_named(s, m, e) by {
            assert(find_entry(resolve_seq(s).modules, m) == None::<ModuleEntryModel>);
        }
        assert forall|m: ModuleModel, n: Seq<char>| !(#[trigger] entry_default_in(
            resolve_seq(s),
            m,
            n,
        )) by {
            assert(find_entry(resolve_seq(s).modules, m) == None::<ModuleEntryModel>);
        }
        assert forall|m: ModuleModel| !(#[trigger] entry_has_default(resolve_seq(s), m)) by {
            assert(find_entry(resolve_seq(s).modules, m) == None::<ModuleEntryModel>);
        }
    } else {
        let s0 = s.drop_last();
        let x = s.last();
        lemma_resolve_char(s0);
        let r0 = resolve_seq(s0);
        assert(r == resolve_step(r0, x));
        assert(s0.len() == s.len() - 1);
        assert forall|j: int| 0 <= j < s0.len() implies s0[j] == s[j] by {}
        assert(s[s.len() - 1] == x);
        assert forall|w: WildModel| has_wild(s, w) <==> (has_wild(s0, w) || (x.kind
            == ImportKind::Wildcard && wild_of(x) == w)) by {
            if has_wild(s, w) {
                let j = choose|j: int|
                    0 <= j < s.len() && s[j].kind == ImportKind::Wildcard && wild_of(s[j]) == w;
                if j < s.len() - 1 {
                    assert(s0[j] == s[j]);
                }
            }
            if has_wild(s0, w) {
                let j = choose|j: int|
                    0 <= j < s0.len() && s0[j].kind == ImportKind::Wildcard && wild_of(s0[j]) == w;
                assert(s[j] == s0[j]);
            }
        }
        assert forall|m: ModuleModel| has_module(s, m) <==> (has_module(s0, m) || ((x.kind
            == ImportKind::Named || x.kind == ImportKind::Default) && x.module == m)) by {
            if has_module(s, m) {
                let j = choose|j: int|
                    0 <= j < s.len() && (s[j].kind == ImportKind::Named || s[j].kind
                        == ImportKind::Default) && s[j].module == m;
                if j < s.len() - 1 {
                    assert(s0[j] == s[j]);
                }
            }
            if has_module(s0, m) {
                let j = choose|j: int|
                    0 <= j < s0.len() && (s0[j].kind == ImportKind::Named || s0[j].kind
                        == ImportKind::Default) && s0[j].module == m;
                assert(s[j] == s0[j]);
            }
        }
        assert forall|m: ModuleModel, e: NamedModel| has_named(s, m, e) <==> (has_named(s0, m, e)
            || (x.kind == ImportKind::Named && x.module == m && named_of(x) == e)) by {
            if has_named(s, m, e) {
                let j = choose|j: int|
                    0 <= j < s.len() && s[j].kind == ImportKind::Named && s[j].module == m
                        && named_of(s[j]) == e;
                if j < s.len() - 1 {
                    assert(s0[j] == s[j]);
                }
            }
            if has_named(s0, m, e) {
                let j = choose|j: int|
                    0 <= j < s0.len() && s0[j].kind == ImportKind::Named && s0[j].module == m
                        && named_of(s0[j]) == e;
                assert(s[j] == s0[j]);
            }
        }
        assert forall|m: ModuleModel, n: Seq<char>| has_default(s, m, n) <==> (has_default(
            s0,
            m,
            n,
        ) || (x.kind == ImportKind::Default && x.module == m && x.name == n)) by {
            if has_default(s, m, n) {
                let j = choose|j: int|
                    0 <= j < s.len() && s[j].kind == ImportKind::Default && s[j].module == m && s[
                        j
                    ].name == n;
                if j < s.len() - 1 {
                    assert(s0[j] == s[j]);
                }
            }
            if has_default(s0, m, n) {
                let j = choose|j: int|
                    0 <= j < s0.len() && s0[j].kind == ImportKind::Default && s0[j].module == m
                        && s0[j].name == n;
                assert(s[j] == s0[j]);
            }
        }
        match x.kind {
            ImportKind::Wildcard => {
                assert(r.modules == r0.modules);
                assert(r.wildcards == insert_wild(r0.wildcards, wild_of(x)));
                lemma_insert_wild_props(r0.wildcards, wild_of(x));
                assert forall|m: ModuleModel| (#[trigger] find_entry(r.modules, m)) is Some
                    <==> has_module(s, m) by {
                    assert(find_entry(r.modules, m) == find_entry(r0.modules, m));
                }
                assert forall|m: ModuleModel, e: NamedModel| #[trigger] entry_named_in(r, m, e)
                    <==> has_named(s, m, e) by {
                    assert(entry_named_in(r, m, e) == entry_named_in(r0, m, e));
                }
                assert forall|m: ModuleModel, n: Seq<char>| #[trigger] entry_default_in(r, m, n)
                    implies has_default(s, m, n) by {
                    assert(entry_default_in(r, m, n) == entry_default_in(r0, m, n));
                }
                assert forall|m: ModuleModel| #[trigger] entry_has_default(r, m) <==> (exists|
                    n: Seq<char>,
                | has_default(s, m, n)) by {
                    assert(entry_has_default(r, m) == entry_has_default(r0, m));
                    if exists|n: Seq<char>| has_default(s, m, n) {
                        let n = choose|n: Seq<char>| has_default(s, m, n);
                        assert(has_default(s0, m, n));
                    }
                    if entry_has_default(r0, m) {
                        let n = choose|n: Seq<char>| has_default(s0, m, n);
                        assert(has_default(s, m, n));
                    }
                }
            },
            ImportKind::Named => {
                let m1 = x.module;
                let e1 = named_of(x);
                assert(r.wildcards == r0.wildcards);
                assert(r.modules == reg_named(r0.modules, m1, e1));
                lemma_reg_named_props(r0.modules, m1, e1);
                let cur = find_entry(r0.modules, m1);
                if cur is Some {
                    lemma_find_module(r0.modules, m1);
                    assert(cur.unwrap().module == m1);
                    lemma_contains_find(r0.modules, cur.unwrap());
                    assert(r0.modules.contains(cur.unwrap()));
                    let i = choose|i: int|
                        0 <= i < r0.modules.len() && r0.modules[i] == cur.unwrap();
                    assert(sorted_named(r0.modules[i].named));
                    lemma_insert_named_props(cur.unwrap().named, e1);
                } else {
                    assert(named_after(cur, m1, e1).named == seq![e1]);
                }
                assert forall|m: ModuleModel, e: NamedModel| #[trigger] entry_named_in(r, m, e)
                    <==> has_named(s, m, e) by {
                    if m == m1 {
                        assert(find_entry(r.modules, m1) == Some(named_after(cur, m1, e1)));
                        if cur is Some {
                            assert(named_after(cur, m1, e1).named == insert_named(
                                cur.unwrap().named,
                                e1,
                            ));
                            assert(entry_named_in(r0, m1, e) == cur.unwrap().named.contains(e));
                            assert(entry_named_in(r, m1, e) == insert_named(
                                cur.unwrap().named,
                                e1,
                            ).contains(e));
                        } else {
                            assert forall|e2: NamedModel| #[trigger] seq![e1].contains(e2)
                                implies e2 == e1 by {
                                let t = choose|t: int|
                                    0 <= t < seq![e1].len() && seq![e1][t] == e2;
                            }
                            assert(seq![e1][0] == e1);
                        }
                    } else {
                        assert(find_entry(reg_named(r0.modules, m1, e1), m) == find_entry(
                            r0.modules,
                            m,
                        ));
                        assert(entry_named_in(r, m, e) == entry_named_in(r0, m, e));
                    }
                }
                assert forall|m: ModuleModel| (#[trigger] find_entry(r.modules, m)) is Some
                    <==> has_module(s, m) by {
                    if m != m1 {
                        assert(find_entry(reg_named(r0.modules, m1, e1), m) == find_entry(
                            r0.modules,
                            m,
                        ));
                    }
                }
                assert forall|m: ModuleModel, n: Seq<char>| #[trigger] entry_default_in(r, m, n)
                    implies has_default(s, m, n) by {
                    if m == m1 {
                        if cur is Some {
                            assert(named_after(cur, m1, e1).default_import
                                == cur.unwrap().default_import);
                            assert(entry_default_in(r0, m1, n));
                        } else {
                            assert(named_after(cur, m1, e1).default_import == None::<Seq<char>>);
                        }
                    } else {
                        assert(find_entry(reg_named(r0.modules, m1, e1), m) == find_entry(
                            r0.modules,
                            m,
                        ));
                        assert(entry_default_in(r, m, n) == entry_default_in(r0, m, n));
                    }
                }
                assert forall|m: ModuleModel| #[trigger] entry_has_default(r, m) <==> (exists|
                    n: Seq<char>,
                | has_default(s, m, n)) by {
                    if m != m1 {
                        assert(find_entry(reg_named(r0.modules, m1, e1), m) == find_entry(
                            r0.modules,
                            m,
                        ));
                        assert(entry_has_default(r, m) == entry_has_default(r0, m));
                    } else {
                        if cur is Some {
                            assert(named_after(cur, m1, e1).default_import
                                == cur.unwrap().default_import);
                        } else {
                            assert(named_after(cur, m1, e1).default_import == None::<Seq<char>>);
                        }
                        assert(entry_has_default(r, m1) == entry_has_default(r0, m1));
                    }
                    if exists|n: Seq<char>| has_default(s, m, n) {
                        let n = choose|n: Seq<char>| has_default(s, m, n);
                        assert(has_default(s0, m, n));
                        assert(entry_has_default(r0, m));
                    }
                    if entry_has_default(r0, m) {
                        let n = choose|n: Seq<char>| has_default(s0, m, n);
                        assert(has_default(s, m, n));
                    }
                }
            },
            ImportKind::Default => {
                let m1 = x.module;
                let n1 = x.name;
                assert(r.wildcards == r0.wildcards);
                assert(r.modules == reg_default(r0.modules, m1, n1));
                lemma_reg_default_props(r0.modules, m1, n1);
                let cur = find_entry(r0.modules, m1);
                assert(find_entry(r.modules, m1) == Some(default_after(cur, m1, n1)));
                assert(default_after(cur, m1, n1).default_import == Some(n1));
                assert forall|m: ModuleModel, e: NamedModel| #[trigger] entry_named_in(r, m, e)
                    <==> has_named(s, m, e) by {
                    if m == m1 {
                        if cur is Some {
                            assert(default_after(cur, m1, n1).named == cur.unwrap().named);
                        } else {
                            assert(default_after(cur, m1, n1).named == Seq::<NamedModel>::empty());
                        }
                        assert(entry_named_in(r, m1, e) == entry_named_in(r0, m1, e));
                    } else {
                        assert(find_entry(reg_default(r0.modules, m1, n1), m) == find_entry(
                            r0.modules,
                            m,
                        ));
                        assert(entry_named_in(r, m, e) == entry_named_in(r0, m, e));
                    }
                }
                assert forall|m: ModuleModel| (#[trigger] find_entry(r.modules, m)) is Some
                    <==> has_module(s, m) by {
                    if m != m1 {
                        assert(find_entry(reg_default(r0.modules, m1, n1), m) == find_entry(
                            r0.modules,
                            m,
                        ));
                    }
                }
                assert forall|m: ModuleModel, n: Seq<char>| #[trigger] entry_default_in(r, m, n)
                    implies has_default(s, m, n) by {
                    if m == m1 {
                        assert(n == n1);
                    } else {
                        assert(find_entry(reg_default(r0.modules, m1, n1), m) == find_entry(
                            r0.modules,
                            m,
                        ));
                        assert(entry_default_in(r, m, n) == entry_default_in(r0, m, n));
                    }
                }
                assert forall|m: ModuleModel| #[trigger] entry_has_default(r, m) <==> (exists|
                    n: Seq<char>,
                | has_default(s, m, n)) by {
                    if m == m1 {
                        assert(has_default(s, m1, n1));
                    } else {
                        assert(find_entry(reg_default(r0.modules, m1, n1), m) == find_entry(
                            r0.modules,
                            m,
                        ));
                        assert(entry_has_default(r, m) == entry_has_default(r0, m));
                        if exists|n: Seq<char>| has_default(s, m, n) {
                            let n = choose|n: Seq<char>| has_default(s, m, n);
                            assert(has_default(s0, m, n));
                            assert(entry_has_default(r0, m));
                        }
                        if entry_has_default(r0, m) {
                            let n = choose|n: Seq<char>| has_default(s0, m, n);
                            assert(has_default(s, m, n));
                        }
                    }
                }
            },
        }
    }
}


/// Two strictly sorted wildcard sequences with the same members are equal.
proof fn lemma_sorted_unique_wilds(a: Seq<WildModel>, b: Seq<WildModel>)
    requires
        sorted_wilds(a),
        sorted_wilds(b),
        forall|x: WildModel| a.contains(x) <==> b.contains(x),
    ensures
        a == b,
    decreases a.len(),
{
    if a.len() == 0 {
        assert(b.len() == 0) by {
            if b.len() > 0 {
                assert(b.contains(b[0]));
            }
        }
        assert(a =~= b);
    } else {
        assert(a.contains(a[0]));
        let j0 = choose|j: int| 0 <= j < b.len() && b[j] == a[0];
        assert(b.contains(b[0]));
        let i0 = choose|i: int| 0 <= i < a.len() && a[i] == b[0];
        if i0 > 0 && j0 > 0 {
            assert(wild_lt(b[0], b[j0]));
            assert(wild_lt(a[0], a[i0]));
            lemma_wild_lt_trans(a[0], b[0], a[0]);
            lemma_wild_lt_irrefl(a[0]);
        }
        assert(a[0] == b[0]);
        let at = a.drop_first();
        let bt = b.drop_first();
        assert forall|i: int, j: int| 0 <= i < j < at.len() implies wild_lt(at[i], at[j]) by {
            assert(at[i] == a[i + 1]);
            assert(at[j] == a[j + 1]);
        }
        assert forall|i: int, j: int| 0 <= i < j < bt.len() implies wild_lt(bt[i], bt[j]) by {
            assert(bt[i] == b[i + 1]);
            assert(bt[j] == b[j + 1]);
        }
        assert forall|x: WildModel| at.contains(x) <==> bt.contains(x) by {
            if at.contains(x) {
                let i = choose|i: int| 0 <= i < at.len() && at[i] == x;
                assert(a[i + 1] == x);
                assert(a.contains(x));
                assert(wild_lt(a[0], x));
                lemma_wild_lt_irrefl(x);
                assert(b.contains(x));
                let j = choose|j: int| 0 <= j < b.len() && b[j] == x;
                assert(j > 0);
                assert(bt[j - 1] == x);
                assert(bt.contains(x));
            }
            if bt.contains(x) {
                let i = choose|i: int| 0 <= i < bt.len() && bt[i] == x;
                assert(b[i + 1] == x);
                assert(b.contains(x));
                assert(wild_lt(b[0], x));
                lemma_wild_lt_irrefl(x);
                assert(a.contains(x));
                let j = choose|j: int| 0 <= j < a.len() && a[j] == x;
                assert(j > 0);
                assert(at[j - 1] == x);
                assert(at.contains(x));
            }
        }
        lemma_sorted_unique_wilds(at, bt);
        assert(at.len() == a.len() - 1);
        assert(bt.len() == b.len() - 1);
        assert forall|i: int| 0 <= i < a.len() implies a[i] == b[i] by {
            if i > 0 {
                assert(at[i - 1] == a[i]);
                assert(bt[i - 1] == b[i]);
            }
        }
        assert(a =~= b);
    }
}

/// Two strictly sorted named sequences with the same members are equal.
proof fn lemma_sorted_unique_named(a: Seq<NamedModel>, b: Seq<NamedModel>)
    requires
        sorted_named(a),
        sorted_named(b),
        forall|x: NamedModel| a.contains(x) <==> b.contains(x),
    ensures
        a == b,
    decreases a.len(),
{
    if a.len() == 0 {
        assert(b.len() == 0) by {
            if b.len() > 0 {
                assert(b.contains(b[0]));
            }
        }
        assert(a =~= b);
    } else {
        assert(a.contains(a[0]));
        let j0 = choose|j: int| 0 <= j < b.len() && b[j] == a[0];
        assert(b.contains(b[0]));
        let i0 = choose|i: int| 0 <= i < a.len() && a[i] == b[0];
        if i0 > 0 && j0 > 0 {
            assert(named_lt(b[0], b[j0]));
            assert(named_lt(a[0], a[i0]));
            lemma_named_lt_trans(a[0], b[0], a[0]);
            lemma_named_lt_irrefl(a[0]);
        }
        assert(a[0] == b[0]);
        let at = a.drop_first();
        let bt = b.drop_first();
        assert forall|i: int, j: int| 0 <= i < j < at.len() implies named_lt(at[i], at[j]) by {
            assert(at[i] == a[i + 1]);
            assert(at[j] == a[j + 1]);
        }
        assert forall|i: int, j: int| 0 <= i < j < bt.len() implies named_lt(bt[i], bt[j]) by {
            assert(bt[i] == b[i + 1]);
            assert(bt[j] == b[j + 1]);
        }
        assert forall|x: NamedModel| at.contains(x) <==> bt.contains(x) by {
            if at.contains(x) {
                let i = choose|i: int| 0 <= i < at.len() && at[i] == x;
                assert(a[i + 1] == x);
                assert(a.contains(x));
                assert(named_lt(a[0], x));
                lemma_named_lt_irrefl(x);
                assert(b.contains(x));
                let j = choose|j: int| 0 <= j < b.len() && b[j] == x;
                assert(j > 0);
                assert(bt[j - 1] == x);
                assert(bt.contains(x));
            }
            if bt.contains(x) {
                let i = choose|i: int| 0 <= i < bt.len() && bt[i] == x;
                assert(b[i + 1] == x);
                assert(b.contains(x));
                assert(named_lt(b[0], x));
                lemma_named_lt_irrefl(x);
                assert(a.contains(x));
                let j = choose|j: int| 0 <= j < a.len() && a[j] == x;
                assert(j > 0);
                assert(at[j - 1] == x);
                assert(at.contains(x));
            }
        }
        lemma_sorted_unique_named(at, bt);
        assert(at.len() == a.len() - 1);
        assert(bt.len() == b.len() - 1);
        assert forall|i: int| 0 <= i < a.len() implies a[i] == b[i] by {
            if i > 0 {
                assert(at[i - 1] == a[i]);
                assert(bt[i - 1] == b[i]);
            }
        }
        assert(a =~= b);
    }
}

/// Two module sequences, strictly sorted by module, with the same members
/// are equal.
proof fn lemma_sorted_unique_entries(a: Seq<ModuleEntryModel>, b: Seq<ModuleEntryModel>)
    requires
        forall|i: int, j: int| 0 <= i < j < a.len() ==> module_lt(
            (#[trigger] a[i]).module,
            (#[trigger] a[j]).module,
        ),
        forall|i: int, j: int| 0 <= i < j < b.len() ==> module_lt(
            (#[trigger] b[i]).module,
            (#[trigger] b[j]).module,
        ),
        forall|x: ModuleEntryModel| a.contains(x) <==> b.contains(x),
    ensures
        a == b,
    decreases a.len(),
{
    if a.len() == 0 {
        assert(b.len() == 0) by {
            if b.len() > 0 {
                assert(b.contains(b[0]));
            }
        }
        assert(a =~= b);
    } else {
        assert(a.contains(a[0]));
        let j0 = choose|j: int| 0 <= j < b.len() && b[j] == a[0];
        assert(b.contains(b[0]));
        let i0 = choose|i: int| 0 <= i < a.len() && a[i] == b[0];
        if i0 > 0 && j0 > 0 {
            assert(module_lt(b[0].module, b[j0].module));
            assert(module_lt(a[0].module, a[i0].module));
            lemma_module_lt_trans(a[0].module, b[0].module, a[0].module);
            lemma_module_lt_irrefl(a[0].module);
        }
        assert(a[0] == b[0]);
        let at = a.drop_first();
        let bt = b.drop_first();
        assert forall|i: int, j: int| 0 <= i < j < at.len() implies module_lt(
            (#[trigger] at[i]).module,
            (#[trigger] at[j]).module,
        ) by {
            assert(at[i] == a[i + 1]);
            assert(at[j] == a[j + 1]);
        }
        assert forall|i: int, j: int| 0 <= i < j < bt.len() implies module_lt(
            (#[trigger] bt[i]).module,
            (#[trigger] bt[j]).module,
        ) by {
            assert(bt[i] == b[i + 1]);
            assert(bt[j] == b[j + 1]);
        }
        assert forall|x: ModuleEntryModel| at.contains(x) <==> bt.contains(x) by {
            if at.contains(x) {
                let i = choose|i: int| 0 <= i < at.len() && at[i] == x;
                assert(a[i + 1] == x);
                assert(a.contains(x));
                assert(module_lt(a[0].module, x.module));
                lemma_module_lt_irrefl(x.module);
                assert(b.contains(x));
                let j = choose|j: int| 0 <= j < b.len() && b[j] == x;
                assert(j > 0);
                assert(bt[j - 1] == x);
                assert(bt.contains(x));
            }
            if bt.contains(x) {
                let i = choose|i: int| 0 <= i < bt.len() && bt[i] == x;
                assert(b[i + 1] == x);
                assert(b.contains(x));
                assert(module_lt(b[0].module, x.module));
                lemma_module_lt_irrefl(x.module);
                assert(a.contains(x));
                let j = choose|j: int| 0 <= j < a.len() && a[j] == x;
                assert(j > 0);
                assert(at[j - 1] == x);
                assert(at.contains(x));
            }
        }
        lemma_sorted_unique_entries(at, bt);
        assert(at.len() == a.len() - 1);
        assert(bt.len() == b.len() - 1);
        assert forall|i: int| 0 <= i < a.len() implies a[i] == b[i] by {
            if i > 0 {
                assert(at[i - 1] == a[i]);
                assert(bt[i - 1] == b[i]);
            }
        }
        assert(a =~= b);
    }
}

/// No two default registrations bind different names for the same module.
pub open spec fn no_default_conflict(s: Seq<ImportModel>) -> bool {
    forall|i: int, j: int|
        0 <= i < s.len() && 0 <= j < s.len() && (#[trigger] s[i]).kind == ImportKind::Default && (
        #[trigger] s[j]).kind == ImportKind::Default && s[i].module == s[j].module ==> s[i].name
            == s[j].name
}

/// The resolution is a function of the collection of registered imports,
/// not of the order in which they were registered: two import sequences
/// holding the same registrations resolve to the same aggregate, provided
/// no module has two conflicting default names registered — with a
/// conflict, the policy that the last registration wins makes the result
/// depend on the order.
pub proof fn lemma_resolution_order_independent(s1: Seq<ImportModel>, s2: Seq<ImportModel>)
    requires
        s1.to_multiset() == s2.to_multiset(),
        no_default_conflict(s1),
    ensures
        resolve_seq(s1) == resolve_seq(s2),
{
    s1.to_multiset_ensures();
    s2.to_multiset_ensures();
    assert forall|x: ImportModel| s1.contains(x) <==> s2.contains(x) by {
        assert(s1.to_multiset().count(x) == s2.to_multiset().count(x));
        assert(s1.contains(x) <==> s1.to_multiset().count(x) > 0);
        assert(s2.contains(x) <==> s2.to_multiset().count(x) > 0);
    }
    lemma_resolve_char(s1);
    lemma_resolve_char(s2);
    let r1 = resolve_seq(s1);
    let r2 = resolve_seq(s2);
    assert forall|w: WildModel| has_wild(s1, w) <==> has_wild(s2, w) by {
        if has_wild(s1, w) {
            let j = choose|j: int|
                0 <= j < s1.len() && s1[j].kind == ImportKind::Wildcard && wild_of(s1[j]) == w;
            assert(s1.contains(s1[j]));
            let k = choose|k: int| 0 <= k < s2.len() && s2[k] == s1[j];
        }
        if has_wild(s2, w) {
            let j = choose|j: int|
                0 <= j < s2.len() && s2[j].kind == ImportKind::Wildcard && wild_of(s2[j]) == w;
            assert(s2.contains(s2[j]));
            let k = choose|k: int| 0 <= k < s1.len() && s1[k] == s2[j];
        }
    }
    assert forall|m: ModuleModel| has_module(s1, m) <==> has_module(s2, m) by {
        if has_module(s1, m) {
            let j = choose|j: int|
                0 <= j < s1.len() && (s1[j].kind == ImportKind::Named || s1[j].kind
                    == ImportKind::Default) && s1[j].module == m;
            assert(s1.contains(s1[j]));
            let k = choose|k: int| 0 <= k < s2.len() && s2[k] == s1[j];
        }
        if has_module(s2, m) {
            let j = choose|j: int|
                0 <= j < s2.len() && (s2[j].kind == ImportKind::Named || s2[j].kind
                    == ImportKind::Default) && s2[j].module == m;
            assert(s2.contains(s2[j]));
            let k = choose|k: int| 0 <= k < s1.len() && s1[k] == s2[j];
        }
    }
    assert forall|m: ModuleModel, e: NamedModel| has_named(s1, m, e) <==> has_named(s2, m, e) by {
        if has_named(s1, m, e) {
            let j = choose|j: int|
                0 <= j < s1.len() && s1[j].kind == ImportKind::Named && s1[j].module == m
                    && named_of(s1[j]) == e;
            assert(s1.contains(s1[j]));
            let k = choose|k: int| 0 <= k < s2.len() && s2[k] == s1[j];
        }
        if has_named(s2, m, e) {
            let j = choose|j: int|
                0 <= j < s2.len() && s2[j].kind == ImportKind::Named && s2[j].module == m
                    && named_of(s2[j]) == e;
            assert(s2.contains(s2[j]));
            let k = choose|k: int| 0 <= k < s1.len() && s1[k] == s2[j];
        }
    }
    assert forall|m: ModuleModel, n: Seq<char>| has_default(s1, m, n) <==> has_default(
        s2,
        m,
        n,
    ) by {
        if has_default(s1, m, n) {
            let j = choose|j: int|
                0 <= j < s1.len() && s1[j].kind == ImportKind::Default && s1[j].module == m && s1[
                    j
                ].name == n;
            assert(s1.contains(s1[j]));
            let k = choose|k: int| 0 <= k < s2.len() && s2[k] == s1[j];
        }
        if has_default(s2, m, n) {
            let j = choose|j: int|
                0 <= j < s2.len() && s2[j].kind == ImportKind::Default && s2[j].module == m && s2[
                    j
                ].name == n;
            assert(s2.contains(s2[j]));
            let k = choose|k: int| 0 <= k < s1.len() && s1[k] == s2[j];
        }
    }
    assert forall|x: WildModel| r1.wildcards.contains(x) <==> r2.wildcards.contains(x) by {}
    lemma_sorted_unique_wilds(r1.wildcards, r2.wildcards);
    assert forall|m: ModuleModel| #[trigger] find_entry(r1.modules, m) == find_entry(
        r2.modules,
        m,
    ) by {
        if find_entry(r1.modules, m) is Some || find_entry(r2.modules, m) is Some {
            assert(has_module(s1, m) <==> find_entry(r1.modules, m) is Some);
            assert(has_module(s2, m) <==> find_entry(r2.modules, m) is Some);
            assert(find_entry(r1.modules, m) is Some);
            assert(find_entry(r2.modules, m) is Some);
            let e1 = find_entry(r1.modules, m).unwrap();
            let e2 = find_entry(r2.modules, m).unwrap();
            lemma_find_module(r1.modules, m);
            lemma_find_module(r2.modules, m);
            assert(e1.module == m);
            assert(e2.module == m);
            lemma_contains_find(r1.modules, e1);
            lemma_contains_find(r2.modules, e2);
            assert(r1.modules.contains(e1));
            assert(r2.modules.contains(e2));
            let i1 = choose|i: int| 0 <= i < r1.modules.len() && r1.modules[i] == e1;
            let i2 = choose|i: int| 0 <= i < r2.modules.len() && r2.modules[i] == e2;
            assert(sorted_named(e1.named));
            assert(sorted_named(e2.named));
            assert forall|e: NamedModel| e1.named.contains(e) <==> e2.named.contains(e) by {
                assert(entry_named_in(r1, m, e) == e1.named.contains(e));
                assert(entry_named_in(r2, m, e) == e2.named.contains(e));
            }
            lemma_sorted_unique_named(e1.named, e2.named);
            if e1.default_import is Some {
                let n = e1.default_import.unwrap();
                assert(entry_default_in(r1, m, n));
                assert(has_default(s1, m, n));
                assert(has_default(s2, m, n));
                assert(entry_has_default(r2, m));
                let n2 = e2.default_import.unwrap();
                assert(entry_default_in(r2, m, n2));
                assert(has_default(s2, m, n2));
                assert(has_default(s1, m, n2));
                let j1 = choose|j: int|
                    0 <= j < s1.len() && s1[j].kind == ImportKind::Default && s1[j].module == m
                        && s1[j].name == n;
                let j2 = choose|j: int|
                    0 <= j < s1.len() && s1[j].kind == ImportKind::Default && s1[j].module == m
                        && s1[j].name == n2;
                assert(n == n2);
                assert(e1.default_import == e2.default_import);
            } else {
                if e2.default_import is Some {
                    let n2 = e2.default_import.unwrap();
                    assert(entry_default_in(r2, m, n2));
                    assert(has_default(s2, m, n2));
                    assert(has_default(s1, m, n2));
                    assert(entry_has_default(r1, m));
                }
                assert(e2.default_import is None);
            }
            assert(e1 == e2);
        }
    }
    assert forall|x: ModuleEntryModel| r1.modules.contains(x) <==> r2.modules.contains(x) by {
        lemma_contains_find(r1.modules, x);
        lemma_contains_find(r2.modules, x);
        assert(find_entry(r1.modules, x.module) == find_entry(r2.modules, x.module));
    }
    lemma_sorted_unique_entries(r1.modules, r2.modules);
    assert(r1 =~= r2);
}

/// Registering a named entry a second time changes nothing: keeping only
/// one copy of equal registrations makes registration idempotent.
pub proof fn lemma_idempotent_registration(s: Seq<ImportModel>, x: ImportModel)
    requires
        x.kind == ImportKind::Named,
        s.contains(x),
    ensures
        resolve_seq(s.push(x)) == resolve_seq(s),
{
    let s2 = s.push(x);
    assert(s2.drop_last() =~= s);
    assert(s2.last() == x);
    assert(resolve_seq(s2) == resolve_step(resolve_seq(s), x));
    lemma_resolve_char(s);
    let r = resolve_seq(s);
    let m = x.module;
    let e = named_of(x);
    let i = choose|i: int| 0 <= i < s.len() && s[i] == x;
    assert(has_named(s, m, e));
    assert(entry_named_in(r, m, e));
    let en = find_entry(r.modules, m).unwrap();
    lemma_find_module(r.modules, m);
    assert(en.module == m);
    lemma_contains_find(r.modules, en);
    assert(r.modules.contains(en));
    let t = choose|t: int| 0 <= t < r.modules.len() && r.modules[t] == en;
    assert(sorted_named(en.named));
    lemma_insert_named_idempotent(en.named, e);
    lemma_reg_named_noop(r.modules, m, e);
    assert(resolve_step(r, x) =~= r);
}

/// The rendered import header is a function of the collection of
/// registered imports and the formatter state it starts from, independent
/// of registration order, for import collections without conflicting
/// default names.
pub proof fn lemma_header_order_independent(
    t: FmtState,
    s1: Seq<ImportModel>,
    s2: Seq<ImportModel>,
    cfg: Option<Seq<char>>,
)
    requires
        s1.to_multiset() == s2.to_multiset(),
        no_default_conflict(s1),
    ensures
        render_header(t, resolve_seq(s1), cfg) == render_header(t, resolve_seq(s2), cfg),
{
    lemma_resolution_order_independent(s1, s2);
}

/// Registering a named entry whose module entry already holds it leaves
/// the aggregate unchanged.
proof fn lemma_reg_named_noop(ms: Seq<ModuleEntryModel>, m: ModuleModel, e: NamedModel)
    requires
        wf_modules(ms),
        find_entry(ms, m) is Some,
        insert_named(find_entry(ms, m).unwrap().named, e) == find_entry(ms, m).unwrap().named,
    ensures
        reg_named(ms, m, e) == ms,
    decreases ms.len(),
{
    if m == ms[0].module {
        assert(find_entry(ms, m) == Some(ms[0]));
        assert(ModuleEntryModel { named: insert_named(ms[0].named, e), ..ms[0] } == ms[0]);
        assert(seq![ms[0]] + ms.drop_first() =~= ms);
    } else {
        if module_lt(m, ms[0].module) {
            assert forall|i: int| 0 <= i < ms.len() implies (#[trigger] ms[i]).module != m by {
                if i > 0 {
                    assert(module_lt(ms[0].module, ms[i].module));
                    lemma_module_lt_trans(m, ms[0].module, ms[i].module);
                }
                lemma_module_lt_irrefl(ms[i].module);
            }
            lemma_find_absent(ms, m);
        }
        lemma_module_lt_connected(m, ms[0].module);
        assert(module_lt(ms[0].module, m));
        let tail = ms.drop_first();
        assert forall|i: int, j: int| 0 <= i < j < tail.len() implies module_lt(
            (#[trigger] tail[i]).module,
            (#[trigger] tail[j]).module,
        ) by {
            assert(tail[i] == ms[i + 1]);
            assert(tail[j] == ms[j + 1]);
        }
        assert forall|i: int| 0 <= i < tail.len() implies sorted_named(
            (#[trigger] tail[i]).named,
        ) by {
            assert(tail[i] == ms[i + 1]);
        }
        assert(find_entry(ms, m) == find_entry(tail, m));
        lemma_reg_named_noop(tail, m, e);
        assert(seq![ms[0]] + tail =~= ms);
    }
}

} // verus!
