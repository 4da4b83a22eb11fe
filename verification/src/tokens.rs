//! The token intermediate representation: an ordered tree of typed items.
//!
//! A stream is a sequence of items; scopes and interpolation regions nest
//! further streams inside it.  The stream supports two read-only traversals:
//! emission in insertion order (see the render functions in [`crate::js`])
//! and extraction of every import reference in the tree, which feeds the
//! import resolver.

use crate::js::Import;
use crate::js::ImportModel;
use vstd::prelude::*;

verus! {

/// One item of a token stream.
pub enum Item {
    /// Opaque text, emitted verbatim.
    Literal(String),
    /// Boundary hint: following content starts on its own line.
    Push,
    /// A blank separator line.
    Line,
    /// A single space between neighbouring literals.
    Space,
    /// Enter one nesting level for subsequently written lines.
    Indent,
    /// Leave one nesting level.
    Unindent,
    /// A nested stream, walked recursively.
    Scope(Tokens),
    /// A string literal whose raw segments pass through the escape table and
    /// whose interpolation regions are rendered recursively, unescaped.
    Quoted(Vec<Segment>),
    /// A reference to an external symbol, collected by the import resolver
    /// and emitted in the body as its locally bound name.
    ImportRef(Import),
}

/// One segment of a quoted literal.
pub enum Segment {
    /// Raw text, escaped on emission.
    Raw(String),
    /// An interpolation region: a nested stream embedded in the literal.
    Eval(Tokens),
}

/// An ordered sequence of items.
pub struct Tokens {
    /// The items, in insertion order.
    pub items: Vec<Item>,
}

/// Every import reference of one item, in traversal order.
pub open spec fn item_imports(it: Item) -> Seq<ImportModel>
    decreases it,
{
    match it {
        Item::Scope(t) => items_imports(t.items@),
        Item::Quoted(segs) => segments_imports(segs@),
        Item::ImportRef(i) => seq![i@],
        _ => Seq::empty(),
    }
}

/// Every import reference of a sequence of items, in traversal order.
pub open spec fn items_imports(items: Seq<Item>) -> Seq<ImportModel>
    decreases items,
{
    if items.len() == 0 {
        Seq::empty()
    } else {
        items_imports(items.drop_last()) + item_imports(items.last())
    }
}

/// Every import reference of one quoted-literal segment.
pub open spec fn segment_imports(seg: Segment) -> Seq<ImportModel>
    decreases seg,
{
    match seg {
        Segment::Raw(_) => Seq::empty(),
        Segment::Eval(t) => items_imports(t.items@),
    }
}

/// Every import reference of a sequence of segments.
pub open spec fn segments_imports(segs: Seq<Segment>) -> Seq<ImportModel>
    decreases segs,
{
    if segs.len() == 0 {
        Seq::empty()
    } else {
        segments_imports(segs.drop_last()) + segment_imports(segs.last())
    }
}

impl Tokens {
    /// An empty stream.
    pub fn new() -> (t: Tokens)
        ensures
            t.items@ == Seq::<Item>::empty(),
    {
        Tokens { items: Vec::new() }
    }

    /// Append a literal.
    pub fn append(&mut self, text: String)
        ensures
            final(self).items@ == old(self).items@.push(Item::Literal(text)),
    {
        self.items.push(Item::Literal(text));
    }

    /// Append a boundary hint: following content starts on its own line.
    pub fn push(&mut self)
        ensures
            final(self).items@ == old(self).items@.push(Item::Push),
    {
        self.items.push(Item::Push);
    }

    /// Append a blank separator line.
    pub fn line(&mut self)
        ensures
            final(self).items@ == old(self).items@.push(Item::Line),
    {
        self.items.push(Item::Line);
    }

    /// Append a single space.
    pub fn space(&mut self)
        ensures
            final(self).items@ == old(self).items@.push(Item::Space),
    {
        self.items.push(Item::Space);
    }

    /// Enter one nesting level.
    pub fn indent(&mut self)
        ensures
            final(self).items@ == old(self).items@.push(Item::Indent),
    {
        self.items.push(Item::Indent);
    }

    /// Leave one nesting level.
    pub fn unindent(&mut self)
        ensures
            final(self).items@ == old(self).items@.push(Item::Unindent),
    {
        self.items.push(Item::Unindent);
    }

    /// Append a nested scope.
    pub fn scope(&mut self, t: Tokens)
        ensures
            final(self).items@ == old(self).items@.push(Item::Scope(t)),
    {
        self.items.push(Item::Scope(t));
    }

    /// Append a quoted literal built from the given segments.
    pub fn quoted(&mut self, segs: Vec<Segment>)
        ensures
            final(self).items@ == old(self).items@.push(Item::Quoted(segs)),
    {
        self.items.push(Item::Quoted(segs));
    }

    /// Append an import reference.
    pub fn import_ref(&mut self, i: Import)
        ensures
            final(self).items@ == old(self).items@.push(Item::ImportRef(i)),
    {
        self.items.push(Item::ImportRef(i));
    }

    /// Collect every import reference in the tree, in traversal order,
    /// visiting nested scopes and interpolation regions.
    pub fn walk_imports(&self) -> (r: Vec<Import>)
        ensures
            r.deep_view() == items_imports(self.items@),
    {
        let mut out: Vec<Import> = Vec::new();
        collect_items(&self.items, &mut out);
        proof {
            assert(Seq::<ImportModel>::empty() + items_imports(self.items@) =~= items_imports(
                self.items@,
            ));
        }
        out
    }
}

/// Walk a sequence of items, appending every import reference to `out`.
fn collect_items(items: &Vec<Item>, out: &mut Vec<Import>)
    ensures
        final(out).deep_view() == old(out).deep_view() + items_imports(items@),
    decreases items@,
{
    let ghost base = out.deep_view();
    let mut k: usize = 0;
    proof {
        assert(base + items_imports(items@.subrange(0, 0)) =~= base);
    }
    while k < items.len()
        invariant
            k <= items@.len(),
            out.deep_view() == base + items_imports(items@.subrange(0, k as int)),
        decreases items@.len() - k,
    {
        let ghost prefix = items@.subrange(0, k as int);
        proof {
            assert(decreases_to!(items@ => items@[k as int]));
        }
        collect_item(&items[k], out);
        proof {
            assert(items@.subrange(0, k as int + 1).drop_last() =~= prefix);
            assert(items@.subrange(0, k as int + 1).last() == items@[k as int]);
            assert(base + items_imports(prefix) + item_imports(items@[k as int]) =~= base
                + items_imports(items@.subrange(0, k as int + 1)));
        }
        k = k + 1;
    }
    proof {
        assert(items@.subrange(0, items@.len() as int) =~= items@);
    }
}

/// Walk one item, appending every import reference to `out`.
fn collect_item(it: &Item, out: &mut Vec<Import>)
    ensures
        final(out).deep_view() == old(out).deep_view() + item_imports(*it),
    decreases *it,
{
    match it {
        Item::Scope(t) => {
            proof {
                assert(decreases_to!(*it => *t));
                assert(decreases_to!(*t => t.items));
                assert(decreases_to!(t.items => t.items@));
            }
            collect_items(&t.items, out);
        },
        Item::Quoted(segs) => {
            proof {
                assert(decreases_to!(*it => *segs));
                assert(decreases_to!(*segs => segs@));
            }
            collect_segments(segs, out);
        },
        Item::ImportRef(i) => {
            out.push(i.clone());
            proof {
                assert(out.deep_view() =~= old(out).deep_view() + item_imports(*it));
            }
        },
        _ => {
            proof {
                assert(out.deep_view() =~= old(out).deep_view() + item_imports(*it));
            }
        },
    }
}

/// Walk a sequence of quoted-literal segments.
fn collect_segments(segs: &Vec<Segment>, out: &mut Vec<Import>)
    ensures
        final(out).deep_view() == old(out).deep_view() + segments_imports(segs@),
    decreases segs@,
{
    let ghost base = out.deep_view();
    let mut k: usize = 0;
    proof {
        assert(base + segments_imports(segs@.subrange(0, 0)) =~= base);
    }
    while k < segs.len()
        invariant
            k <= segs@.len(),
            out.deep_view() == base + segments_imports(segs@.subrange(0, k as int)),
        decreases segs@.len() - k,
    {
        let ghost prefix = segs@.subrange(0, k as int);
        match &segs[k] {
            Segment::Eval(t) => {
                proof {
                    assert(decreases_to!(segs@ => segs@[k as int]));
                    assert(decreases_to!(segs@[k as int] => *t));
                    assert(decreases_to!(*t => t.items));
                    assert(decreases_to!(t.items => t.items@));
                }
                collect_items(&t.items, out);
            },
            Segment::Raw(_) => {},
        }
        proof {
            assert(segs@.subrange(0, k as int + 1).drop_last() =~= prefix);
            assert(segs@.subrange(0, k as int + 1).last() == segs@[k as int]);
            assert(base + segments_imports(prefix) + segment_imports(segs@[k as int]) =~= base
                + segments_imports(segs@.subrange(0, k as int + 1)));
        }
        k = k + 1;
    }
    proof {
        assert(segs@.subrange(0, segs@.len() as int) =~= segs@);
    }
}

} // verus!
