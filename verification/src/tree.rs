//! The documentation tree as a whole.

use crate::ast::{AstItem, Summary};
use crate::table::{IdMap, IdMapView};
use vstd::prelude::*;

verus! {

/// The documentation tree of a package: every item under its identifier,
/// the canonical paths of the items of the public surface, and the
/// package's version. Both maps are walked in insertion order.
pub struct Ast {
    pub items: IdMap<AstItem>,
    pub summaries: IdMap<Summary>,
    pub crate_version: Option<String>,
}

/// What an [`Ast`] holds.
pub struct AstView {
    pub items: IdMapView<AstItem>,
    pub summaries: IdMapView<Summary>,
    pub crate_version: Option<String>,
}

impl AstView {
    pub open spec fn wf(self) -> bool {
        self.items.wf() && self.summaries.wf()
    }
}

impl View for Ast {
    type V = AstView;

    open spec fn view(&self) -> AstView {
        AstView {
            items: self.items@,
            summaries: self.summaries@,
            crate_version: self.crate_version,
        }
    }
}

impl Ast {
    pub open spec fn wf(&self) -> bool {
        self.items.wf() && self.summaries.wf()
    }

    /// A well-formed tree has a well-formed view.
    pub proof fn lemma_view_wf(&self)
        requires
            self.wf(),
        ensures
            self@.wf(),
    {
        self.items.lemma_view_wf();
        self.summaries.lemma_view_wf();
    }

    /// A tree without items.
    pub fn new(crate_version: Option<String>) -> (r: Self)
        ensures
            r.wf(),
            r@.items.order.len() == 0,
            r@.summaries.order.len() == 0,
            r@.crate_version == crate_version,
    {
        Ast { items: IdMap::new(), summaries: IdMap::new(), crate_version }
    }
}

} // verus!
