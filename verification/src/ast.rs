//! The items of a documentation tree.

use vstd::prelude::*;

verus! {

/// What kind of thing an item is.
#[derive(Clone, Copy, Debug, PartialEq, Eq, Hash, Structural)]
pub enum ItemKind {
    Module,
    ExternCrate,
    Use,
    Struct,
    StructField,
    Union,
    Enum,
    Variant,
    Function,
    TypeAlias,
    Constant,
    Trait,
    TraitAlias,
    Impl,
    Static,
    ExternType,
    Macro,
    ProcAttribute,
    ProcDerive,
    AssocConst,
    AssocType,
    Primitive,
    Keyword,
    Attribute,
}

/// How a procedural macro is invoked.
#[derive(Clone, Copy, Debug, PartialEq, Eq, Hash, Structural)]
pub enum MacroKind {
    Bang,
    Attr,
    Derive,
}

/// Where an item is declared in the sources.
#[derive(Debug, PartialEq, Eq)]
pub struct Span {
    pub filename: String,
    /// Line and column of the first character.
    pub begin: (usize, usize),
    /// Line and column of the last character.
    pub end: (usize, usize),
}

impl Clone for Span {
    fn clone(&self) -> (r: Self)
        ensures
            r == *self,
    {
        Span { filename: self.filename.clone(), begin: self.begin, end: self.end }
    }
}

/// Who may name an item.
#[derive(Debug, PartialEq, Eq)]
pub enum Visibility {
    Public,
    /// No visibility was written.
    Default,
    Crate,
    /// `pub(in path)`: `parent` is the module that `path` names.
    Restricted { parent: u32, path: String },
}

impl Clone for Visibility {
    fn clone(&self) -> (r: Self)
        ensures
            r == *self,
    {
        match self {
            Visibility::Public => Visibility::Public,
            Visibility::Default => Visibility::Default,
            Visibility::Crate => Visibility::Crate,
            Visibility::Restricted { parent, path } => Visibility::Restricted {
                parent: *parent,
                path: path.clone(),
            },
        }
    }
}

/// A deprecation notice.
#[derive(Debug, PartialEq, Eq)]
pub struct Deprecation {
    pub since: Option<String>,
    pub note: Option<String>,
}

/// A copy of an optional string.
pub fn clone_text(text: &Option<String>) -> (r: Option<String>)
    ensures
        r == *text,
{
    match text {
        Some(s) => Some(s.clone()),
        None => None,
    }
}

impl Clone for Deprecation {
    fn clone(&self) -> (r: Self)
        ensures
            r == *self,
    {
        Deprecation { since: clone_text(&self.since), note: clone_text(&self.note) }
    }
}

/// A link in an item's documentation: the text that names the target, and
/// the identifier of the target.
#[derive(Debug, PartialEq, Eq)]
pub struct Link {
    pub name: String,
    pub target: u32,
}

impl Clone for Link {
    fn clone(&self) -> (r: Self)
        ensures
            r == *self,
    {
        Link { name: self.name.clone(), target: self.target }
    }
}

/// A copy of a list of identifiers.
pub fn clone_ids(ids: &Vec<u32>) -> (r: Vec<u32>)
    ensures
        r@ == ids@,
{
    let mut out: Vec<u32> = Vec::new();
    let mut i: usize = 0;
    while i < ids.len()
        invariant
            i <= ids.len(),
            out@ == ids@.take(i as int),
        decreases ids.len() - i,
    {
        out.push(ids[i]);
        i += 1;
    }
    out
}

/// A copy of a list of strings, such as a path.
pub fn clone_strings(list: &Vec<String>) -> (r: Vec<String>)
    ensures
        r@ == list@,
        r.deep_view() == list.deep_view(),
{
    let mut out: Vec<String> = Vec::new();
    let mut i: usize = 0;
    while i < list.len()
        invariant
            i <= list.len(),
            out@ == list@.take(i as int),
        decreases list.len() - i,
    {
        out.push(list[i].clone());
        i += 1;
    }
    out
}

/// A copy of a list of links.
pub fn clone_links(links: &Vec<Link>) -> (r: Vec<Link>)
    ensures
        r@ == links@,
{
    let mut out: Vec<Link> = Vec::new();
    let mut i: usize = 0;
    while i < links.len()
        invariant
            i <= links.len(),
            out@ == links@.take(i as int),
        decreases links.len() - i,
    {
        out.push(links[i].clone());
        i += 1;
    }
    out
}

/// What an item holds besides its name and documentation, by kind.
///
/// Lists of identifiers are in declaration order.
#[derive(Debug, PartialEq, Eq)]
pub enum ItemInner {
    /// A module and its direct children.
    Module { items: Vec<u32> },
    ExternCrate,
    /// A re-export: the name under which the target is visible, and the
    /// target, which a glob import does not have.
    Use { name: String, target: Option<u32> },
    /// A union and its implementation blocks.
    Union { impls: Vec<u32> },
    /// A struct and its implementation blocks.
    Struct { impls: Vec<u32> },
    StructField,
    /// An enum and its variants.
    Enum { variants: Vec<u32> },
    Variant,
    Function,
    /// A trait and the items declared in its body.
    Trait { items: Vec<u32> },
    TraitAlias,
    /// An implementation block: the type it is for, where that is a named
    /// type, the trait it implements, if any, and its members.
    Impl { target: Option<u32>, trait_: Option<u32>, items: Vec<u32> },
    TypeAlias,
    Constant,
    Static,
    ExternType,
    Macro,
    ProcMacro { kind: MacroKind },
    Primitive,
    AssocConst,
    AssocType,
}

/// An [`ItemInner`] with its lists as sequences.
pub enum InnerView {
    Module { items: Seq<u32> },
    ExternCrate,
    Use { name: Seq<char>, target: Option<u32> },
    Union { impls: Seq<u32> },
    Struct { impls: Seq<u32> },
    StructField,
    Enum { variants: Seq<u32> },
    Variant,
    Function,
    Trait { items: Seq<u32> },
    TraitAlias,
    Impl { target: Option<u32>, trait_: Option<u32>, items: Seq<u32> },
    TypeAlias,
    Constant,
    Static,
    ExternType,
    Macro,
    ProcMacro { kind: MacroKind },
    Primitive,
    AssocConst,
    AssocType,
}

impl View for ItemInner {
    type V = InnerView;

    open spec fn view(&self) -> InnerView {
        match *self {
            ItemInner::Module { items } => InnerView::Module { items: items@ },
            ItemInner::ExternCrate => InnerView::ExternCrate,
            ItemInner::Use { name, target } => InnerView::Use { name: name@, target },
            ItemInner::Union { impls } => InnerView::Union { impls: impls@ },
            ItemInner::Struct { impls } => InnerView::Struct { impls: impls@ },
            ItemInner::StructField => InnerView::StructField,
            ItemInner::Enum { variants } => InnerView::Enum { variants: variants@ },
            ItemInner::Variant => InnerView::Variant,
            ItemInner::Function => InnerView::Function,
            ItemInner::Trait { items } => InnerView::Trait { items: items@ },
            ItemInner::TraitAlias => InnerView::TraitAlias,
            ItemInner::Impl { target, trait_, items } => InnerView::Impl {
                target,
                trait_,
                items: items@,
            },
            ItemInner::TypeAlias => InnerView::TypeAlias,
            ItemInner::Constant => InnerView::Constant,
            ItemInner::Static => InnerView::Static,
            ItemInner::ExternType => InnerView::ExternType,
            ItemInner::Macro => InnerView::Macro,
            ItemInner::ProcMacro { kind } => InnerView::ProcMacro { kind },
            ItemInner::Primitive => InnerView::Primitive,
            ItemInner::AssocConst => InnerView::AssocConst,
            ItemInner::AssocType => InnerView::AssocType,
        }
    }
}

impl Clone for ItemInner {
    fn clone(&self) -> (r: Self)
        ensures
            r@ == self@,
    {
        match self {
            ItemInner::Module { items } => ItemInner::Module { items: clone_ids(items) },
            ItemInner::ExternCrate => ItemInner::ExternCrate,
            ItemInner::Use { name, target } => ItemInner::Use {
                name: name.clone(),
                target: *target,
            },
            ItemInner::Union { impls } => ItemInner::Union { impls: clone_ids(impls) },
            ItemInner::Struct { impls } => ItemInner::Struct { impls: clone_ids(impls) },
            ItemInner::StructField => ItemInner::StructField,
            ItemInner::Enum { variants } => ItemInner::Enum { variants: clone_ids(variants) },
            ItemInner::Variant => ItemInner::Variant,
            ItemInner::Function => ItemInner::Function,
            ItemInner::Trait { items } => ItemInner::Trait { items: clone_ids(items) },
            ItemInner::TraitAlias => ItemInner::TraitAlias,
            ItemInner::Impl { target, trait_, items } => ItemInner::Impl {
                target: *target,
                trait_: *trait_,
                items: clone_ids(items),
            },
            ItemInner::TypeAlias => ItemInner::TypeAlias,
            ItemInner::Constant => ItemInner::Constant,
            ItemInner::Static => ItemInner::Static,
            ItemInner::ExternType => ItemInner::ExternType,
            ItemInner::Macro => ItemInner::Macro,
            ItemInner::ProcMacro { kind } => ItemInner::ProcMacro { kind: *kind },
            ItemInner::Primitive => ItemInner::Primitive,
            ItemInner::AssocConst => ItemInner::AssocConst,
            ItemInner::AssocType => ItemInner::AssocType,
        }
    }
}

/// One node of the documentation tree.
#[derive(Debug, PartialEq, Eq)]
pub struct AstItem {
    /// The crate that declares the item; 0 is the documented package.
    pub crate_id: u32,
    pub name: Option<String>,
    pub span: Option<Span>,
    pub visibility: Visibility,
    pub docs: Option<String>,
    pub links: Vec<Link>,
    pub attrs: Vec<String>,
    pub deprecation: Option<Deprecation>,
    pub inner: ItemInner,
}

/// The canonical path of an item of the public surface.
#[derive(Debug, PartialEq, Eq)]
pub struct Summary {
    /// The crate that declares the item; 0 is the documented package.
    pub crate_id: u32,
    /// The segments of the path, the crate's name first.
    pub path: Vec<String>,
    pub kind: ItemKind,
}

} // verus!
